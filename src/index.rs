use vstd::prelude::*;

use crate::error::Error;

verus! {

/// The finest resolution of the grid.
pub const MAX_RESOLUTION: u8 = 15;

/// Whether a bit pattern is a valid cell index.
pub uninterp spec fn is_cell(v: u64) -> bool;

/// Whether a bit pattern is a valid directed edge index.
pub uninterp spec fn is_edge(v: u64) -> bool;

/// Whether a bit pattern is a valid vertex index.
pub uninterp spec fn is_vertex(v: u64) -> bool;

/// The number of bits that the digits finer than resolution `r` take.
pub open spec fn unused_shift(r: u8) -> u64 {
    (45 - 3 * r) as u64
}

/// The ancestor of cell `v` at resolution `r` (for `r` no finer than the cell's own): the
/// resolution field set to `r`, and every digit finer than `r` set to 7 (all bits set).
pub open spec fn parent_of(v: u64, r: u8) -> u64 {
    (v & !(15u64 << 52u64)) | ((r as u64) << 52u64) | !(0xffff_ffff_ffff_ffffu64 << unused_shift(r))
}

pub proof fn lemma_parent_resolution(v: u64, r: u8)
    requires
        r <= MAX_RESOLUTION,
    ensures
        res_of(parent_of(v, r)) == r,
{
    reveal(parent_of);
    let rb = r as u64;
    let s = unused_shift(r);
    assert(s <= 45);
    assert(((((v & !(15u64 << 52u64)) | (rb << 52u64) | !(0xffff_ffff_ffff_ffffu64 << s)) >> 52u64) & 15u64) == rb) by (bit_vector)
        requires
            rb <= 15,
            s <= 45,
    ;
}

/// The ancestor at `r2` of the ancestor at `r1` is the ancestor at `r2`.
pub proof fn lemma_parent_of_parent(v: u64, r1: u8, r2: u8)
    requires
        r2 <= r1 <= MAX_RESOLUTION,
    ensures
        parent_of(parent_of(v, r1), r2) == parent_of(v, r2),
{
    reveal(parent_of);
    let a = r1 as u64;
    let b = r2 as u64;
    let s1 = unused_shift(r1);
    let s2 = unused_shift(r2);
    assert(s1 <= s2 <= 45);
    let first = parent_of(v, r1);
    assert(first == (v & !(15u64 << 52u64)) | (a << 52u64) | !(0xffff_ffff_ffff_ffffu64 << s1));
    assert((((((v & !(15u64 << 52u64)) | (a << 52u64) | !(0xffff_ffff_ffff_ffffu64 << s1))) & !(15u64 << 52u64)) | (b << 52u64) | !(0xffff_ffff_ffff_ffffu64 << s2)) == (v & !(15u64 << 52u64)) | (b << 52u64) | !(0xffff_ffff_ffff_ffffu64 << s2)) by (bit_vector)
        requires
            a <= 15,
            b <= 15,
            s1 <= s2,
            s2 <= 45,
    ;
}

/// Whether `x` is `c` or a strict ancestor of it.
pub open spec fn covers(x: u64, c: u64) -> bool {
    x == c || is_ancestor(x, c)
}

pub proof fn lemma_covers_transitive(x: u64, m: u64, c: u64)
    requires
        covers(x, m),
        covers(m, c),
    ensures
        covers(x, c),
{
    if x != m && m != c {
        lemma_res_of_bounded(m);
        lemma_parent_of_parent(c, res_of(m), res_of(x));
    }
}

/// The descendants of cell `v` at resolution `r`, in the grid's order.
pub uninterp spec fn children_of(v: u64, r: u8) -> Seq<u64>;

/// The minimal cover of a duplicate-free set of cells of one resolution.
pub uninterp spec fn compact_of(s: Seq<u64>) -> Seq<u64>;

/// The cells within `k` steps of cell `v`, in the grid's order.
pub uninterp spec fn disk_of(v: u64, k: u32) -> Seq<u64>;

/// The cells within `k` steps of cell `v`, each with its step distance.
pub uninterp spec fn disk_distances_of(v: u64, k: u32) -> Seq<(u64, u32)>;

/// The resolution field of an index: bits 52 to 55.
pub open spec fn res_of(v: u64) -> u8 {
    ((v >> 52u64) & 15u64) as u8
}

pub proof fn lemma_res_of_bounded(v: u64)
    ensures
        res_of(v) <= MAX_RESOLUTION,
{
    assert(((v >> 52u64) & 15u64) <= 15u64) by (bit_vector);
}

/// Whether `a` is a strict ancestor of `c`: coarser, and `c`'s parent at `a`'s resolution.
pub open spec fn is_ancestor(a: u64, c: u64) -> bool {
    res_of(a) < res_of(c) && parent_of(c, res_of(a)) == a
}

/// The concatenation of the descendants at `r` of each cell of `s`, in order.
pub open spec fn uncompacted(s: Seq<u64>, r: u8) -> Seq<u64>
    decreases s.len(),
{
    if s.len() == 0 {
        Seq::empty()
    } else {
        uncompacted(s.drop_last(), r) + children_of(s.last(), r)
    }
}

pub open spec fn all_cells(s: Seq<u64>) -> bool {
    forall|i: int| 0 <= i < s.len() ==> #[trigger] is_cell(s[i])
}

/// Every pair holds a cell and a distance of at most `k`.
pub open spec fn pairs_valid(s: Seq<(u64, u32)>, k: u32) -> bool {
    forall|i: int| 0 <= i < s.len() ==> is_cell((#[trigger] s[i]).0) && s[i].1 <= k
}

pub open spec fn all_at_resolution(s: Seq<u64>, r: u8) -> bool {
    forall|i: int| 0 <= i < s.len() ==> #[trigger] res_of(s[i]) == r
}

/// Relies on h3o's `CellIndex::try_from(u64)`: it accepts exactly the valid cell patterns.
#[verifier::external_body]
pub(crate) fn cell_check(v: u64) -> (b: bool)
    ensures
        b == is_cell(v),
{
    h3o::CellIndex::try_from(v).is_ok()
}

/// Relies on h3o's `DirectedEdgeIndex::try_from(u64)`: it accepts exactly the valid edge patterns.
#[verifier::external_body]
pub(crate) fn edge_check(v: u64) -> (b: bool)
    ensures
        b == is_edge(v),
{
    h3o::DirectedEdgeIndex::try_from(v).is_ok()
}

/// Relies on h3o's `VertexIndex::try_from(u64)`: it accepts exactly the valid vertex patterns.
#[verifier::external_body]
pub(crate) fn vertex_check(v: u64) -> (b: bool)
    ensures
        b == is_vertex(v),
{
    h3o::VertexIndex::try_from(v).is_ok()
}

/// Relies on h3o's `CellIndex::parent`: `Some` exactly when `r` is no finer than the
/// cell's resolution, and then the cell whose resolution field is `r` and whose finer
/// digits are unused (`bits::set_resolution`, then `bits::set_unused`).
#[verifier::external_body]
pub(crate) fn cell_parent(v: u64, r: u8) -> (p: Option<u64>)
    requires
        is_cell(v),
        r <= MAX_RESOLUTION,
    ensures
        p == (if r <= res_of(v) { Some(parent_of(v, r)) } else { None::<u64> }),
        p matches Some(x) ==> is_cell(x) && res_of(x) == r,
{
    let res = h3o::Resolution::try_from(r).ok()?;
    h3o::CellIndex::try_from(v).ok()?.parent(res).map(u64::from)
}

/// What the children of `v` at `r` are: valid cells at `r` that `v` covers, each once, and
/// all of them; `v` itself at its own resolution, none at a coarser one.
pub open spec fn children_ok(v: u64, r: u8) -> bool {
    let c = children_of(v, r);
    &&& all_cells(c)
    &&& c.no_duplicates()
    &&& forall|i: int| 0 <= i < c.len() ==> res_of(#[trigger] c[i]) == r && covers(v, c[i])
    &&& (r < res_of(v) ==> c.len() == 0)
    &&& (r == res_of(v) ==> c == seq![v])
    &&& c.to_set() == leaves(seq![v], r)
}

/// Relies on h3o's `CellIndex::children` (the `Children` iterator): every valid cell at
/// resolution `r` that the cell covers, each once; the cell itself where `r` is its own
/// resolution, none where `r` is coarser.
#[verifier::external_body]
pub(crate) fn cell_children(v: u64, r: u8) -> (c: Vec<u64>)
    requires
        is_cell(v),
        r <= MAX_RESOLUTION,
    ensures
        c@ == children_of(v, r),
        all_cells(c@),
        c@.no_duplicates(),
        forall|i: int| 0 <= i < c@.len() ==> res_of(#[trigger] c@[i]) == r && covers(v, c@[i]),
        r < res_of(v) ==> c@.len() == 0,
        r == res_of(v) ==> c@ == seq![v],
        c@.to_set() == leaves(seq![v], r),
{
    match (h3o::CellIndex::try_from(v), h3o::Resolution::try_from(r)) {
        (Ok(cell), Ok(res)) => cell.children(res).map(u64::from).collect(),
        _ => Vec::new(),
    }
}

/// The cells at resolution `r` that a cell of `s` covers: the cell itself where it has
/// resolution `r`, else its descendants at `r`.
pub open spec fn leaves(s: Seq<u64>, r: u8) -> Set<u64> {
    Set::new(|x: u64| is_cell(x) && res_of(x) == r && exists|i: int| 0 <= i < s.len() && covers(#[trigger] s[i], x))
}

/// Relies on h3o's `CellIndex::uncompact`: the children at `r` of each cell (the same
/// `Children` iterator as `cell_children`), concatenated; the children of a cell being every
/// valid cell at `r` that it covers, none for a cell finer than `r`.
#[verifier::external_body]
pub(crate) fn cells_uncompact(s: &Vec<u64>, r: u8) -> (c: Vec<u64>)
    requires
        all_cells(s@),
        r <= MAX_RESOLUTION,
    ensures
        c@ == uncompacted(s@, r) && forall|i: int| 0 <= i < s@.len() ==> children_ok(#[trigger] s@[i], r),
        all_cells(c@),
        c@.to_set() == leaves(s@, r),
{
    let cells: Result<Vec<h3o::CellIndex>, _> = s.iter().map(|v| h3o::CellIndex::try_from(*v)).collect();
    match (cells, h3o::Resolution::try_from(r)) {
        (Ok(cells), Ok(res)) => h3o::CellIndex::uncompact(cells, res).map(u64::from).collect(),
        _ => Vec::new(),
    }
}

/// Why the grid library refuses to compact a set of cells.
#[derive(Clone, Copy, Debug, PartialEq, Eq, Structural)]
pub enum CompactionFailure {
    HeterogeneousResolution,
    DuplicateInput,
}

/// Whether no cell of `s` is a strict ancestor of another.
pub open spec fn ancestor_free(s: Seq<u64>) -> bool {
    forall|i: int, j: int| 0 <= i < s.len() && 0 <= j < s.len() ==> !is_ancestor(#[trigger] s[i], #[trigger] s[j])
}

/// Whether every cell at resolution `r` that `p` covers is covered by a cell of `s`.
pub open spec fn fully_covered(p: u64, s: Seq<u64>, r: u8) -> bool {
    leaves(seq![p], r).subset_of(leaves(s, r))
}

/// Whether the parent of `o` (if `o` has one) is not fully covered by `s` at `r`: no
/// complete group of siblings that `o` belongs to is left unmerged.
pub open spec fn maximal_in(o: u64, s: Seq<u64>, r: u8) -> bool {
    res_of(o) > 0 ==> !fully_covered(parent_of(o, (res_of(o) - 1) as u8), s, r)
}

/// `v` covers exactly the cells that `s` covers at every resolution from `r` on.
#[verifier::opaque]
pub open spec fn same_leaves_from(s: Seq<u64>, v: Seq<u64>, r: u8) -> bool {
    forall|q: u8| r <= q <= MAX_RESOLUTION ==> #[trigger] leaves(v, q) == leaves(s, q)
}

/// `v` holds each cell once, none an ancestor of another, and none whose parent has all
/// its descendants at `r` covered by `s`.
#[verifier::opaque]
pub open spec fn minimal_cover(s: Seq<u64>, v: Seq<u64>, r: u8) -> bool {
    &&& v.no_duplicates()
    &&& ancestor_free(v)
    &&& forall|j: int| 0 <= j < v.len() ==> maximal_in(#[trigger] v[j], s, r)
}

/// Relies on h3o's `CellIndex::compact` (the `Compact` iterator): it refuses cells of
/// differing resolutions, then duplicates. Otherwise it walks the sorted cells and, at the
/// first child of a range, emits the coarsest ancestor all of whose descendants at the
/// input resolution are present, skipping that range; else the cell itself. So the result
/// holds each cell once, none an ancestor of another; it covers exactly the cells the
/// input covers at the input resolution and finer; and no cell of it has a parent whose
/// descendants are all present.
#[verifier::external_body]
pub(crate) fn cells_compact(s: &Vec<u64>) -> (c: Result<Vec<u64>, CompactionFailure>)
    requires
        all_cells(s@),
    ensures
        c matches Err(CompactionFailure::HeterogeneousResolution) <==> !all_at_resolution(s@, res_of(s@[0])),
        c matches Err(CompactionFailure::DuplicateInput) <==> (all_at_resolution(s@, res_of(s@[0])) && !s@.no_duplicates()),
        c matches Ok(v) ==> v@ == compact_of(s@) && all_cells(v@),
        c matches Ok(v) ==> forall|i: int| 0 <= i < s@.len() ==> exists|j: int| 0 <= j < v@.len() && covers(#[trigger] v@[j], #[trigger] s@[i]),
        c matches Ok(v) ==> forall|j: int| 0 <= j < v@.len() ==> exists|i: int| 0 <= i < s@.len() && covers(#[trigger] v@[j], #[trigger] s@[i]),
        c matches Ok(v) ==> same_leaves_from(s@, v@, res_of(s@[0])) && minimal_cover(s@, v@, res_of(s@[0])),
{
    let cells: Result<Vec<h3o::CellIndex>, _> = s.iter().map(|v| h3o::CellIndex::try_from(*v)).collect();
    match h3o::CellIndex::compact(cells.unwrap_or_default()) {
        Ok(it) => Ok(it.map(u64::from).collect()),
        Err(h3o::error::CompactionError::HeterogeneousResolution) => Err(
            CompactionFailure::HeterogeneousResolution,
        ),
        Err(_) => Err(CompactionFailure::DuplicateInput),
    }
}

/// Relies on h3o's `CellIndex::grid_disk`: the cells within `k` steps, starting from the
/// cell itself, each once (the ring walk, or the breadth-first walk with its `seen` set),
/// at most `3k(k+1)+1` of them.
#[verifier::external_body]
pub(crate) fn cell_grid_disk(v: u64, k: u32) -> (c: Vec<u64>)
    requires
        is_cell(v),
    ensures
        c@ == disk_of(v, k),
        all_cells(c@),
        c@.len() > 0 && c@[0] == v,
        c@.no_duplicates(),
        c@.len() <= 3 * k * (k + 1) + 1,
{
    match h3o::CellIndex::try_from(v) {
        Ok(cell) => cell.grid_disk::<Vec<_>>(k).into_iter().map(u64::from).collect(),
        Err(_) => Vec::new(),
    }
}

/// Relies on h3o's `CellIndex::grid_disk_distances`: the cells within `k` steps, each once
/// with its distance, which is at most `k`, starting from the cell itself at distance 0, at
/// most `3k(k+1)+1` of them.
#[verifier::external_body]
pub(crate) fn cell_grid_disk_distances(v: u64, k: u32) -> (c: Vec<(u64, u32)>)
    requires
        is_cell(v),
    ensures
        c@ == disk_distances_of(v, k),
        pairs_valid(c@, k),
        c@.len() > 0 && c@[0] == (v, 0u32),
        forall|i: int, j: int| 0 <= i < j < c@.len() ==> (#[trigger] c@[i]).0 != (#[trigger] c@[j]).0,
        c@.len() <= 3 * k * (k + 1) + 1,
{
    match h3o::CellIndex::try_from(v) {
        Ok(cell) => cell.grid_disk_distances::<Vec<_>>(k).into_iter().map(|(c, d)| (u64::from(c), d)).collect(),
        Err(_) => Vec::new(),
    }
}

/// A resolution of the grid, from 0 (coarsest) to 15 (finest).
#[derive(Clone, Copy, Debug, PartialEq, Eq, Structural, Hash)]
pub struct Resolution {
    value: u8,
}

impl View for Resolution {
    type V = u8;

    closed spec fn view(&self) -> u8 {
        self.value
    }
}

impl Resolution {
    #[verifier::type_invariant]
    spec fn inv(&self) -> bool {
        self.value <= MAX_RESOLUTION
    }

    pub fn try_from_u8(value: u8) -> (r: Result<Resolution, Error>)
        ensures
            r is Ok <==> value <= MAX_RESOLUTION,
            r matches Ok(x) ==> x@ == value,
            r matches Err(e) ==> e == Error::InvalidResolution(value),
    {
        if value <= MAX_RESOLUTION {
            Ok(Resolution { value })
        } else {
            Err(Error::InvalidResolution(value))
        }
    }

    pub fn value(&self) -> (r: u8)
        ensures
            r == self@,
            r <= MAX_RESOLUTION,
    {
        proof {
            use_type_invariant(self);
        }
        self.value
    }

    /// The next finer resolution, if any.
    pub fn succ(&self) -> (r: Option<Resolution>)
        ensures
            r is Some <==> self@ < MAX_RESOLUTION,
            r matches Some(x) ==> x@ == self@ + 1,
    {
        proof {
            use_type_invariant(self);
        }
        if self.value < MAX_RESOLUTION {
            Some(Resolution { value: self.value + 1 })
        } else {
            None
        }
    }

    /// The next coarser resolution, if any.
    pub fn pred(&self) -> (r: Option<Resolution>)
        ensures
            r is Some <==> self@ > 0,
            r matches Some(x) ==> x@ == self@ - 1,
    {
        proof {
            use_type_invariant(self);
        }
        if self.value > 0 {
            Some(Resolution { value: self.value - 1 })
        } else {
            None
        }
    }
}

/// A value that an index array can hold: a 64-bit pattern valid for one kind of index.
pub trait H3IndexArrayValue: Sized + Copy {
    /// Whether a bit pattern is valid for this kind.
    spec fn valid_raw(v: u64) -> bool;

    /// The error that rejects an invalid bit pattern of this kind.
    spec fn invalid_error(v: u64) -> Error;

    /// The bit pattern of the value.
    spec fn raw(&self) -> u64;

    fn check_u64(v: u64) -> (b: bool)
        ensures
            b == Self::valid_raw(v),
    ;

    fn try_from_u64(v: u64) -> (r: Result<Self, Error>)
        ensures
            r is Ok <==> Self::valid_raw(v),
            r matches Ok(x) ==> x.raw() == v,
            r matches Err(e) ==> e == Self::invalid_error(v),
    ;

    /// Takes a pattern already known to be valid as the typed value, without a new check.
    fn transmute_from_u64(v: u64) -> (r: Self)
        requires
            Self::valid_raw(v),
        ensures
            r.raw() == v,
    ;

    fn to_u64(&self) -> (r: u64)
        ensures
            r == self.raw(),
            Self::valid_raw(r),
    ;
}

/// A valid cell index.
#[derive(Clone, Copy, Debug, PartialEq, Eq, Structural, Hash)]
pub struct CellIndex {
    raw: u64,
}

impl View for CellIndex {
    type V = u64;

    closed spec fn view(&self) -> u64 {
        self.raw
    }
}

impl CellIndex {
    #[verifier::type_invariant]
    spec fn inv(&self) -> bool {
        is_cell(self.raw)
    }

    pub fn resolution(&self) -> (r: Resolution)
        ensures
            r@ == res_of(self@),
    {
        proof {
            lemma_res_of_bounded(self.raw);
        }
        Resolution { value: ((self.raw >> 52u64) & 15u64) as u8 }
    }

    /// The ancestor at `resolution`, or `None` where that is finer than the cell.
    pub fn parent(&self, resolution: Resolution) -> (r: Option<CellIndex>)
        ensures
            r is Some <==> resolution@ <= res_of(self@),
            r matches Some(p) ==> p@ == parent_of(self@, resolution@) && res_of(p@)
                == resolution@,
    {
        proof {
            use_type_invariant(self);
        }
        match cell_parent(self.raw, resolution.value()) {
            Some(p) => Some(CellIndex { raw: p }),
            None => None,
        }
    }

    /// The descendants at `resolution`.
    pub fn children(&self, resolution: Resolution) -> (r: Vec<CellIndex>)
        ensures
            r@.len() == children_of(self@, resolution@).len(),
            forall|i: int| 0 <= i < r@.len() ==> #[trigger] r@[i]@ == children_of(self@, resolution@)[i],
    {
        proof {
            use_type_invariant(self);
        }
        let raw = cell_children(self.raw, resolution.value());
        let mut out: Vec<CellIndex> = Vec::new();
        let mut i: usize = 0;
        while i < raw.len()
            invariant
                i <= raw@.len(),
                raw@ == children_of(self@, resolution@),
                all_cells(raw@),
                out@.len() == i,
                forall|j: int| 0 <= j < i ==> #[trigger] out@[j]@ == raw@[j],
            decreases raw@.len() - i,
        {
            assert(is_cell(raw@[i as int]));
            out.push(CellIndex { raw: raw[i] });
            i = i + 1;
        }
        out
    }
}

impl H3IndexArrayValue for CellIndex {
    open spec fn valid_raw(v: u64) -> bool {
        is_cell(v)
    }

    open spec fn invalid_error(v: u64) -> Error {
        Error::InvalidCellIndex(v)
    }

    open spec fn raw(&self) -> u64 {
        self@
    }

    fn check_u64(v: u64) -> (b: bool) {
        cell_check(v)
    }

    fn try_from_u64(v: u64) -> (r: Result<Self, Error>) {
        if cell_check(v) {
            Ok(CellIndex { raw: v })
        } else {
            Err(Error::InvalidCellIndex(v))
        }
    }

    fn transmute_from_u64(v: u64) -> (r: Self) {
        CellIndex { raw: v }
    }

    fn to_u64(&self) -> (r: u64) {
        proof {
            use_type_invariant(self);
        }
        self.raw
    }
}

/// A valid directed edge index.
#[derive(Clone, Copy, Debug, PartialEq, Eq, Structural, Hash)]
pub struct DirectedEdgeIndex {
    raw: u64,
}

impl View for DirectedEdgeIndex {
    type V = u64;

    closed spec fn view(&self) -> u64 {
        self.raw
    }
}

impl DirectedEdgeIndex {
    #[verifier::type_invariant]
    spec fn inv(&self) -> bool {
        is_edge(self.raw)
    }
}

impl H3IndexArrayValue for DirectedEdgeIndex {
    open spec fn valid_raw(v: u64) -> bool {
        is_edge(v)
    }

    open spec fn invalid_error(v: u64) -> Error {
        Error::InvalidDirectedEdgeIndex(v)
    }

    open spec fn raw(&self) -> u64 {
        self@
    }

    fn check_u64(v: u64) -> (b: bool) {
        edge_check(v)
    }

    fn try_from_u64(v: u64) -> (r: Result<Self, Error>) {
        if edge_check(v) {
            Ok(DirectedEdgeIndex { raw: v })
        } else {
            Err(Error::InvalidDirectedEdgeIndex(v))
        }
    }

    fn transmute_from_u64(v: u64) -> (r: Self) {
        DirectedEdgeIndex { raw: v }
    }

    fn to_u64(&self) -> (r: u64) {
        proof {
            use_type_invariant(self);
        }
        self.raw
    }
}

/// A valid vertex index.
#[derive(Clone, Copy, Debug, PartialEq, Eq, Structural, Hash)]
pub struct VertexIndex {
    raw: u64,
}

impl View for VertexIndex {
    type V = u64;

    closed spec fn view(&self) -> u64 {
        self.raw
    }
}

impl VertexIndex {
    #[verifier::type_invariant]
    spec fn inv(&self) -> bool {
        is_vertex(self.raw)
    }
}

impl H3IndexArrayValue for VertexIndex {
    open spec fn valid_raw(v: u64) -> bool {
        is_vertex(v)
    }

    open spec fn invalid_error(v: u64) -> Error {
        Error::InvalidVertexIndex(v)
    }

    open spec fn raw(&self) -> u64 {
        self@
    }

    fn check_u64(v: u64) -> (b: bool) {
        vertex_check(v)
    }

    fn try_from_u64(v: u64) -> (r: Result<Self, Error>) {
        if vertex_check(v) {
            Ok(VertexIndex { raw: v })
        } else {
            Err(Error::InvalidVertexIndex(v))
        }
    }

    fn transmute_from_u64(v: u64) -> (r: Self) {
        VertexIndex { raw: v }
    }

    fn to_u64(&self) -> (r: u64) {
        proof {
            use_type_invariant(self);
        }
        self.raw
    }
}

} // verus!
