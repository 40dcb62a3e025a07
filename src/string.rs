use vstd::prelude::*;

use vstd::string::StrSliceExecFns;

use crate::array::{all_valid, H3Array};
use crate::error::Error;
use crate::index::{is_cell, is_edge, is_vertex, CellIndex, DirectedEdgeIndex, H3IndexArrayValue, VertexIndex};

verus! {

/// The value of a digit in base `radix` (10 or 16), either case, as `from_str_radix` reads it.
pub open spec fn radix_digit(c: char, radix: nat) -> Option<nat> {
    let v = if c == 'A' { Some(10nat) } else if c == 'B' { Some(11nat) } else if c == 'C' { Some(12nat) }
        else if c == 'D' { Some(13nat) } else if c == 'E' { Some(14nat) } else if c == 'F' { Some(15nat) }
        else { hex_char_value(c) };
    match v {
        Some(d) => if d < radix { Some(d) } else { None },
        None => None,
    }
}

/// The number that a run of digits in base `radix` denotes.
pub open spec fn radix_value(s: Seq<char>, radix: nat) -> nat
    decreases s.len(),
{
    if s.len() == 0 {
        0
    } else {
        radix_value(s.drop_last(), radix) * radix + match radix_digit(s.last(), radix) {
            Some(d) => d,
            None => 0,
        }
    }
}

/// What `u64::from_str_radix` reads: an optional `+`, then at least one digit of the radix,
/// the value fitting in 64 bits.
pub open spec fn u64_text(s: Seq<char>, radix: nat) -> Option<u64> {
    let d = if s.len() > 0 && s[0] == '+' { s.skip(1) } else { s };
    if d.len() > 0 && (forall|i: int| 0 <= i < d.len() ==> (#[trigger] radix_digit(d[i], radix)) is Some)
        && radix_value(d, radix) <= u64::MAX {
        Some(radix_value(d, radix) as u64)
    } else {
        None
    }
}

/// What h3o reads from a hexadecimal cell text: the number, if it is a valid cell.
pub open spec fn cell_hex_parse(s: Seq<char>) -> Option<u64> {
    match u64_text(s, 16) {
        Some(v) => if is_cell(v) { Some(v) } else { None },
        None => None,
    }
}

/// What h3o reads from a hexadecimal directed edge text: the number, if it is a valid edge.
pub open spec fn edge_hex_parse(s: Seq<char>) -> Option<u64> {
    match u64_text(s, 16) {
        Some(v) => if is_edge(v) { Some(v) } else { None },
        None => None,
    }
}

/// What h3o reads from a hexadecimal vertex text: the number, if it is a valid vertex.
pub open spec fn vertex_hex_parse(s: Seq<char>) -> Option<u64> {
    match u64_text(s, 16) {
        Some(v) => if is_vertex(v) { Some(v) } else { None },
        None => None,
    }
}

/// What std reads from a decimal text of an unsigned 64-bit integer.
pub open spec fn decimal_parse(s: Seq<char>) -> Option<u64> {
    u64_text(s, 10)
}

pub open spec fn hex_digit(d: nat) -> char {
    if d == 0 { '0' } else if d == 1 { '1' } else if d == 2 { '2' } else if d == 3 { '3' }
    else if d == 4 { '4' } else if d == 5 { '5' } else if d == 6 { '6' } else if d == 7 { '7' }
    else if d == 8 { '8' } else if d == 9 { '9' } else if d == 10 { 'a' } else if d == 11 { 'b' }
    else if d == 12 { 'c' } else if d == 13 { 'd' } else if d == 14 { 'e' } else { 'f' }
}

pub open spec fn hex_char_value(c: char) -> Option<nat> {
    if c == '0' { Some(0) } else if c == '1' { Some(1) } else if c == '2' { Some(2) }
    else if c == '3' { Some(3) } else if c == '4' { Some(4) } else if c == '5' { Some(5) }
    else if c == '6' { Some(6) } else if c == '7' { Some(7) } else if c == '8' { Some(8) }
    else if c == '9' { Some(9) } else if c == 'a' { Some(10) } else if c == 'b' { Some(11) }
    else if c == 'c' { Some(12) } else if c == 'd' { Some(13) } else if c == 'e' { Some(14) }
    else if c == 'f' { Some(15) } else { None }
}

/// `v` in lowercase hexadecimal, without leading zeros.
pub open spec fn hex_of(v: nat) -> Seq<char>
    decreases v,
{
    if v < 16 {
        seq![hex_digit(v)]
    } else {
        hex_of(v / 16).push(hex_digit(v % 16))
    }
}

/// Whether `s` is a non-empty run of lowercase hexadecimal digits.
pub open spec fn is_lower_hex(s: Seq<char>) -> bool {
    s.len() > 0 && forall|i: int| 0 <= i < s.len() ==> (#[trigger] hex_char_value(s[i])) is Some
}

/// The number that a run of lowercase hexadecimal digits denotes.
pub open spec fn hex_value(s: Seq<char>) -> nat
    decreases s.len(),
{
    if s.len() == 0 {
        0
    } else {
        hex_value(s.drop_last()) * 16 + match hex_char_value(s.last()) {
            Some(d) => d,
            None => 0,
        }
    }
}

proof fn lemma_hex_digit(d: nat)
    requires
        d < 16,
    ensures
        hex_char_value(hex_digit(d)) == Some(d),
{
}

/// The hexadecimal text of a number is read back as that number.
pub proof fn lemma_hex_round_trip(v: nat)
    ensures
        is_lower_hex(hex_of(v)),
        hex_value(hex_of(v)) == v,
    decreases v,
{
    if v < 16 {
        lemma_hex_digit(v);
        let s = hex_of(v);
        assert(s.drop_last() =~= Seq::<char>::empty());
        assert(hex_value(s.drop_last()) == 0);
        assert(s.last() == hex_digit(v));
    } else {
        lemma_hex_round_trip(v / 16);
        lemma_hex_digit(v % 16);
        vstd::arithmetic::div_mod::lemma_fundamental_div_mod(v as int, 16);
        let s = hex_of(v);
        assert(s.drop_last() == hex_of(v / 16));
        assert(s.last() == hex_digit(v % 16));
        assert(hex_value(s) == hex_value(hex_of(v / 16)) * 16 + v % 16);
        assert forall|i: int| 0 <= i < s.len() implies (#[trigger] hex_char_value(s[i])) is Some by {
            if i < s.len() - 1 {
                assert(s[i] == hex_of(v / 16)[i]);
            }
        }
    }
}

proof fn lemma_lower_hex_radix(s: Seq<char>)
    requires
        forall|i: int| 0 <= i < s.len() ==> (#[trigger] hex_char_value(s[i])) is Some,
    ensures
        radix_value(s, 16) == hex_value(s),
        forall|i: int| 0 <= i < s.len() ==> (#[trigger] radix_digit(s[i], 16)) is Some,
    decreases s.len(),
{
    if s.len() > 0 {
        let d = s.drop_last();
        assert forall|i: int| 0 <= i < d.len() implies (#[trigger] hex_char_value(d[i])) is Some by {
            assert(d[i] == s[i]);
        }
        lemma_lower_hex_radix(d);
        assert(hex_char_value(s.last()) is Some);
        assert(radix_digit(s.last(), 16) == hex_char_value(s.last()));
        assert forall|i: int| 0 <= i < s.len() implies (#[trigger] radix_digit(s[i], 16)) is Some by {
            assert(hex_char_value(s[i]) is Some);
        }
    }
}

/// A run of lowercase hexadecimal digits whose value fits in 64 bits reads as that value.
pub proof fn lemma_lower_hex_reads(s: Seq<char>)
    requires
        is_lower_hex(s),
        hex_value(s) <= u64::MAX,
    ensures
        u64_text(s, 16) == Some(hex_value(s) as u64),
{
    lemma_lower_hex_radix(s);
    assert(s[0] != '+') by {
        assert(hex_char_value(s[0]) is Some);
    }
}

/// Reading back the text of a valid cell gives the cell: `parse_cell` takes the hexadecimal
/// reading first, and the text that `to_hex_string` gives reads as the cell's own pattern.
pub proof fn lemma_cell_text_round_trip(v: u64)
    requires
        is_cell(v),
    ensures
        cell_hex_parse(hex_of(v as nat)) == Some(v),
        forall|c: CellIndex| c@ == v ==> #[trigger] parsed_cell(hex_of(v as nat), Ok(CellText::Index(c))),
{
    lemma_hex_round_trip(v as nat);
    lemma_lower_hex_reads(hex_of(v as nat));
}

/// Relies on h3o's `Display` for `CellIndex`: the bit pattern in lowercase hexadecimal.
#[verifier::external_body]
fn cell_to_hex(v: u64) -> (r: String)
    requires
        is_cell(v),
    ensures
        r@ == hex_of(v as nat),
{
    match h3o::CellIndex::try_from(v) {
        Ok(c) => c.to_string(),
        Err(_) => String::new(),
    }
}

/// Relies on h3o's `Display` for `DirectedEdgeIndex`: the bit pattern in lowercase hexadecimal.
#[verifier::external_body]
fn edge_to_hex(v: u64) -> (r: String)
    requires
        is_edge(v),
    ensures
        r@ == hex_of(v as nat),
{
    match h3o::DirectedEdgeIndex::try_from(v) {
        Ok(e) => e.to_string(),
        Err(_) => String::new(),
    }
}

/// Relies on h3o's `Display` for `VertexIndex`: the bit pattern in lowercase hexadecimal.
#[verifier::external_body]
fn vertex_to_hex(v: u64) -> (r: String)
    requires
        is_vertex(v),
    ensures
        r@ == hex_of(v as nat),
{
    match h3o::VertexIndex::try_from(v) {
        Ok(x) => x.to_string(),
        Err(_) => String::new(),
    }
}

/// Relies on h3o's `FromStr` for `CellIndex`: `u64::from_str_radix(s, 16)`, kept if it is a
/// valid cell.
#[verifier::external_body]
fn cell_from_hex(s: &str) -> (r: Option<u64>)
    ensures
        r == cell_hex_parse(s@),
        r matches Some(v) ==> is_cell(v),
{
    <h3o::CellIndex as std::str::FromStr>::from_str(s).ok().map(u64::from)
}

/// Relies on h3o's `FromStr` for `DirectedEdgeIndex`: `u64::from_str_radix(s, 16)`, kept if
/// it is a valid directed edge.
#[verifier::external_body]
fn edge_from_hex(s: &str) -> (r: Option<u64>)
    ensures
        r == edge_hex_parse(s@),
        r matches Some(v) ==> is_edge(v),
{
    <h3o::DirectedEdgeIndex as std::str::FromStr>::from_str(s).ok().map(u64::from)
}

/// Relies on h3o's `FromStr` for `VertexIndex`: `u64::from_str_radix(s, 16)`, kept if it is a
/// valid vertex.
#[verifier::external_body]
fn vertex_from_hex(s: &str) -> (r: Option<u64>)
    ensures
        r == vertex_hex_parse(s@),
        r matches Some(v) ==> is_vertex(v),
{
    <h3o::VertexIndex as std::str::FromStr>::from_str(s).ok().map(u64::from)
}

/// Relies on `u64::from_str`: the decimal number the text denotes, if it fits.
#[verifier::external_body]
fn u64_from_decimal(s: &str) -> (r: Option<u64>)
    ensures
        r == decimal_parse(s@),
{
    <u64 as std::str::FromStr>::from_str(s).ok()
}

/// The index in lowercase hexadecimal.
pub trait ToHexString: H3IndexArrayValue {
    fn to_hex_string(&self) -> (r: String)
        ensures
            r@ == hex_of(self.raw() as nat),
    ;
}

impl ToHexString for CellIndex {
    fn to_hex_string(&self) -> (r: String) {
        let v = self.to_u64();
        cell_to_hex(v)
    }
}

impl ToHexString for DirectedEdgeIndex {
    fn to_hex_string(&self) -> (r: String) {
        let v = self.to_u64();
        edge_to_hex(v)
    }
}

impl ToHexString for VertexIndex {
    fn to_hex_string(&self) -> (r: String) {
        let v = self.to_u64();
        vertex_to_hex(v)
    }
}

impl<IX: ToHexString> H3Array<IX> {
    /// Each index as hexadecimal text; a null stays null.
    pub fn to_genericstringarray(&self) -> (r: Vec<Option<String>>)
        ensures
            r@.len() == self@.len(),
            forall|i: int|
                0 <= i < r@.len() ==> (#[trigger] r@[i] is Some <==> self@[i] is Some) && (r@[i] matches Some(t)
                    ==> t@ == hex_of(self@[i]->0 as nat)),
    {
        let n = self.len();
        let mut out: Vec<Option<String>> = Vec::new();
        let mut i: usize = 0;
        while i < n
            invariant
                i <= n,
                n == self@.len(),
                out@.len() == i,
                forall|j: int|
                    0 <= j < i ==> (#[trigger] out@[j] is Some <==> self@[j] is Some) && (out@[j] matches Some(t)
                        ==> t@ == hex_of(self@[j]->0 as nat)),
            decreases n - i,
        {
            match self.get(i) {
                Some(v) => out.push(Some(v.to_hex_string())),
                None => out.push(None),
            }
            i = i + 1;
        }
        out
    }
}

/// ASCII whitespace: space, tab, line feed, form feed and carriage return.
pub open spec fn is_ascii_ws(c: char) -> bool {
    c == ' ' || c == '\t' || c == '\n' || c == '\x0C' || c == '\r'
}

pub fn is_whitespace(c: char) -> (r: bool)
    ensures
        r == is_ascii_ws(c),
{
    c == ' ' || c == '\t' || c == '\n' || c == '\x0C' || c == '\r'
}

/// A character that may stand in the text of a coordinate.
pub open spec fn is_number_char(c: char) -> bool {
    hex_char_value(c) matches Some(d) && d < 10 || c == '.' || c == '-' || c == '+' || c == 'e' || c
        == 'E' || is_special_number_letter(c)
}

/// A letter of `nan`, `inf` or `infinity` (either case), which a coordinate may be spelled as.
pub open spec fn is_special_number_letter(c: char) -> bool {
    c == 'n' || c == 'a' || c == 'i' || c == 'f' || c == 't' || c == 'y' || c == 'N' || c == 'A'
        || c == 'I' || c == 'F' || c == 'T' || c == 'Y'
}

pub open spec fn is_separator(c: char) -> bool {
    c == ',' || c == ';'
}

pub open spec fn decimal_digit(c: char) -> Option<u8> {
    match hex_char_value(c) {
        Some(d) => if d < 10 {
            Some(d as u8)
        } else {
            None
        },
        None => None,
    }
}

/// The first position from `i` on that holds no whitespace.
pub open spec fn skip_ws_from(s: Seq<char>, i: int) -> int
    decreases s.len() - i,
{
    if 0 <= i < s.len() && is_ascii_ws(s[i]) {
        skip_ws_from(s, i + 1)
    } else {
        i
    }
}

/// The first position from `i` on that holds no character of a coordinate.
pub open spec fn number_end_from(s: Seq<char>, i: int) -> int
    decreases s.len() - i,
{
    if 0 <= i < s.len() && is_number_char(s[i]) {
        number_end_from(s, i + 1)
    } else {
        i
    }
}

/// `x, y, r` or `x; y; r`, whitespace allowed around the separators and in front, `r` one
/// or two decimal digits; whatever follows the digits is ignored.
pub open spec fn coordinate_triple(s: Seq<char>) -> Option<(Seq<char>, Seq<char>, u8)> {
    let i0 = skip_ws_from(s, 0);
    let i1 = number_end_from(s, i0);
    let i2 = skip_ws_from(s, i1);
    let i3 = skip_ws_from(s, i2 + 1);
    let i4 = number_end_from(s, i3);
    let i5 = skip_ws_from(s, i4);
    let i6 = skip_ws_from(s, i5 + 1);
    if i1 > i0 && i2 < s.len() && is_separator(s[i2]) && i4 > i3 && i5 < s.len() && is_separator(
        s[i5],
    ) && i6 < s.len() && decimal_digit(s[i6]) is Some {
        let d1 = decimal_digit(s[i6])->0;
        let r = if i6 + 1 < s.len() && decimal_digit(s[i6 + 1]) is Some {
            (d1 * 10 + decimal_digit(s[i6 + 1])->0) as u8
        } else {
            d1
        };
        Some((s.subrange(i0, i1), s.subrange(i3, i4), r))
    } else {
        None
    }
}

/// The texts of a coordinate pair and a resolution, not yet converted.
#[derive(Clone, Debug, PartialEq, Eq)]
pub struct CoordinateText {
    pub x: String,
    pub y: String,
    pub resolution: u8,
}

/// A cell text read as far as the library reads it: an index, or a coordinate triple.
#[derive(Clone, Debug, PartialEq, Eq)]
pub enum CellText {
    Index(CellIndex),
    Coordinate(CoordinateText),
}

fn is_number_char_exec(c: char) -> (r: bool)
    ensures
        r == is_number_char(c),
{
    c == '0' || c == '1' || c == '2' || c == '3' || c == '4' || c == '5' || c == '6' || c == '7' || c
        == '8' || c == '9' || c == '.' || c == '-' || c == '+' || c == 'e' || c == 'E' || c == 'n'
        || c == 'a' || c == 'i' || c == 'f' || c == 't' || c == 'y' || c == 'N' || c == 'A' || c
        == 'I' || c == 'F' || c == 'T' || c == 'Y'
}

fn decimal_digit_exec(c: char) -> (r: Option<u8>)
    ensures
        r == decimal_digit(c),
{
    if c == '0' { Some(0) } else if c == '1' { Some(1) } else if c == '2' { Some(2) }
    else if c == '3' { Some(3) } else if c == '4' { Some(4) } else if c == '5' { Some(5) }
    else if c == '6' { Some(6) } else if c == '7' { Some(7) } else if c == '8' { Some(8) }
    else if c == '9' { Some(9) } else { None }
}

fn skip_ws(s: &str, i: usize) -> (r: usize)
    requires
        i <= s@.len(),
    ensures
        r == skip_ws_from(s@, i as int),
        i <= r <= s@.len(),
{
    let n = s.unicode_len();
    let mut j = i;
    while j < n && is_whitespace(s.get_char(j))
        invariant
            i <= j <= n,
            n == s@.len(),
            skip_ws_from(s@, i as int) == skip_ws_from(s@, j as int),
        decreases n - j,
    {
        j = j + 1;
    }
    j
}

fn number_end(s: &str, i: usize) -> (r: usize)
    requires
        i <= s@.len(),
    ensures
        r == number_end_from(s@, i as int),
        i <= r <= s@.len(),
{
    let n = s.unicode_len();
    let mut j = i;
    while j < n && is_number_char_exec(s.get_char(j))
        invariant
            i <= j <= n,
            n == s@.len(),
            number_end_from(s@, i as int) == number_end_from(s@, j as int),
        decreases n - j,
    {
        j = j + 1;
    }
    j
}

/// Reads `x, y, r` or `x; y; r` (see `coordinate_triple`).
pub fn parse_coordinate_and_resolution(s: &str) -> (r: Option<CoordinateText>)
    ensures
        r is Some <==> coordinate_triple(s@) is Some,
        r matches Some(t) ==> coordinate_triple(s@) == Some((t.x@, t.y@, t.resolution)),
{
    let n = s.unicode_len();
    let i0 = skip_ws(s, 0);
    let i1 = number_end(s, i0);
    let i2 = skip_ws(s, i1);
    if i1 == i0 || i2 >= n {
        return None;
    }
    let c2 = s.get_char(i2);
    if !(c2 == ',' || c2 == ';') {
        return None;
    }
    let i3 = skip_ws(s, i2 + 1);
    let i4 = number_end(s, i3);
    let i5 = skip_ws(s, i4);
    if i4 == i3 || i5 >= n {
        return None;
    }
    let c5 = s.get_char(i5);
    if !(c5 == ',' || c5 == ';') {
        return None;
    }
    let i6 = skip_ws(s, i5 + 1);
    if i6 >= n {
        return None;
    }
    let d1 = match decimal_digit_exec(s.get_char(i6)) {
        Some(d) => d,
        None => {
            return None;
        },
    };
    let mut res = d1;
    if i6 + 1 < n {
        match decimal_digit_exec(s.get_char(i6 + 1)) {
            Some(d2) => {
                res = d1 * 10 + d2;
            },
            None => {},
        }
    }
    let x = String::from_str(s.substring_char(i0, i1));
    let y = String::from_str(s.substring_char(i3, i4));
    Some(CoordinateText { x, y, resolution: res })
}

/// What `parse_cell` gives for a text: hexadecimal first, then decimal, then a coordinate
/// triple; an index only where it is a valid cell.
pub open spec fn parsed_cell(s: Seq<char>, r: Result<CellText, Error>) -> bool {
    match cell_hex_parse(s) {
        Some(v) => r matches Ok(CellText::Index(c)) && c@ == v,
        None => match decimal_parse(s) {
            Some(x) if is_cell(x) => r matches Ok(CellText::Index(c)) && c@ == x,
            _ => match coordinate_triple(s) {
                Some((xs, ys, res)) => r matches Ok(CellText::Coordinate(t)) && t.x@ == xs && t.y@
                    == ys && t.resolution == res,
                None => r == Err::<CellText, Error>(Error::NonParsableCellIndex),
            },
        },
    }
}

/// Reads a cell from hexadecimal or decimal text, or reads the parts of a coordinate triple.
pub fn parse_cell(s: &str) -> (r: Result<CellText, Error>)
    ensures
        parsed_cell(s@, r),
        (is_lower_hex(s@) && hex_value(s@) <= u64::MAX && is_cell(hex_value(s@) as u64)) ==> (r matches Ok(CellText::Index(c)) && c@ == hex_value(s@)),
{
    proof {
        if is_lower_hex(s@) && hex_value(s@) <= u64::MAX {
            lemma_lower_hex_reads(s@);
        }
    }
    match cell_from_hex(s) {
        Some(v) => {
            return Ok(CellText::Index(CellIndex::transmute_from_u64(v)));
        },
        None => {},
    }
    match u64_from_decimal(s) {
        Some(x) => {
            if crate::index::cell_check(x) {
                return Ok(CellText::Index(CellIndex::transmute_from_u64(x)));
            }
        },
        None => {},
    }
    match parse_coordinate_and_resolution(s) {
        Some(t) => Ok(CellText::Coordinate(t)),
        None => Err(Error::NonParsableCellIndex),
    }
}

/// Reads a directed edge from hexadecimal or decimal text.
pub fn parse_directededge(s: &str) -> (r: Result<DirectedEdgeIndex, Error>)
    ensures
        match edge_hex_parse(s@) {
            Some(v) => r matches Ok(e) && e@ == v,
            None => match decimal_parse(s@) {
                Some(x) if is_edge(x) => r matches Ok(e) && e@ == x,
                _ => r == Err::<DirectedEdgeIndex, Error>(Error::NonParsableDirectedEdgeIndex),
            },
        },
{
    match edge_from_hex(s) {
        Some(v) => {
            return Ok(DirectedEdgeIndex::transmute_from_u64(v));
        },
        None => {},
    }
    match u64_from_decimal(s) {
        Some(x) => {
            if crate::index::edge_check(x) {
                return Ok(DirectedEdgeIndex::transmute_from_u64(x));
            }
        },
        None => {},
    }
    Err(Error::NonParsableDirectedEdgeIndex)
}

/// Reads a vertex from hexadecimal or decimal text.
pub fn parse_vertex(s: &str) -> (r: Result<VertexIndex, Error>)
    ensures
        match vertex_hex_parse(s@) {
            Some(v) => r matches Ok(x) && x@ == v,
            None => match decimal_parse(s@) {
                Some(x) if is_vertex(x) => r matches Ok(y) && y@ == x,
                _ => r == Err::<VertexIndex, Error>(Error::NonParsableVertexIndex),
            },
        },
{
    match vertex_from_hex(s) {
        Some(v) => {
            return Ok(VertexIndex::transmute_from_u64(v));
        },
        None => {},
    }
    match u64_from_decimal(s) {
        Some(x) => {
            if crate::index::vertex_check(x) {
                return Ok(VertexIndex::transmute_from_u64(x));
            }
        },
        None => {},
    }
    Err(Error::NonParsableVertexIndex)
}

/// The array of per-text results: with `set_failing_to_invalid` a failed text becomes a
/// null, else the first failure is returned.
pub open spec fn parse_results_ok<IX: H3IndexArrayValue>(values: Seq<Option<Result<IX, Error>>>, set_failing_to_invalid: bool) -> bool {
    set_failing_to_invalid || forall|i: int| 0 <= i < values.len() ==> !((#[trigger] values[i]) matches Some(Err(_)))
}

impl<IX: H3IndexArrayValue> H3Array<IX> {
    /// Collects per-text parse results into an array.
    pub fn from_parse_results(values: Vec<Option<Result<IX, Error>>>, set_failing_to_invalid: bool) -> (r: Result<Self, Error>)
        ensures
            r is Ok <==> parse_results_ok(values@, set_failing_to_invalid),
            r matches Ok(a) ==> a@.len() == values@.len() && forall|i: int| 0 <= i < values@.len() ==> #[trigger] a@[i] == match values@[i] {
                Some(Ok(x)) => Some(x.raw()),
                _ => None::<u64>,
            },
            r matches Err(e) ==> exists|i: int| 0 <= i < values@.len() && #[trigger] values@[i] == Some(Err::<IX, Error>(e)),
    {
        let mut out: Vec<Option<u64>> = Vec::new();
        let mut i: usize = 0;
        while i < values.len()
            invariant
                i <= values@.len(),
                out@.len() == i,
                all_valid::<IX>(out@),
                !set_failing_to_invalid ==> forall|j: int| 0 <= j < i ==> !((#[trigger] values@[j]) matches Some(Err(_))),
                forall|j: int| 0 <= j < i ==> #[trigger] out@[j] == match values@[j] {
                    Some(Ok(x)) => Some(x.raw()),
                    _ => None::<u64>,
                },
            decreases values@.len() - i,
        {
            let v = match &values[i] {
                Some(Ok(x)) => Some(x.to_u64()),
                Some(Err(e)) => {
                    if !set_failing_to_invalid {
                        return Err(*e);
                    }
                    None
                },
                None => None,
            };
            out.push(v);
            i = i + 1;
        }
        Ok(H3Array::from_valid_options(&out))
    }
}

} // verus!
