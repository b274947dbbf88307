use vstd::prelude::*;

use crate::error::{AppError, AppResult};
use crate::chars::{digit_run_end, digits_val, is_digit_char, lemma_digit_run_end_exact, lemma_digits_val_mono};
use crate::sheet::core_model::SheetAddress;

verus! {

/// A rectangular block of cells, `start` at the top-left and `end` at the
/// bottom-right (inclusive on both axes).
#[derive(Eq, Hash, Clone, Debug)]
pub struct SheetRange {
    pub start: SheetAddress,
    pub end: SheetAddress,
}

impl PartialEq for SheetRange {
    fn eq(&self, other: &SheetRange) -> (r: bool)
        ensures
            r == (self == other),
    {
        self.start.eq(&other.start) && self.end.eq(&other.end)
    }
}

impl vstd::std_specs::cmp::PartialEqSpecImpl for SheetRange {
    open spec fn obeys_eq_spec() -> bool {
        true
    }

    open spec fn eq_spec(&self, other: &SheetRange) -> bool {
        self == other
    }
}

/// The addresses of one row, columns `c0..=c1`, in column-ascending order.
pub open spec fn row_addrs(row: i32, c0: int, c1: int) -> Seq<SheetAddress>
    decreases c1 - c0 + 1,
{
    if c0 > c1 || c0 < i32::MIN || c1 > i32::MAX {
        Seq::empty()
    } else {
        seq![SheetAddress { row, col: c0 as i32 }] + row_addrs(row, c0 + 1, c1)
    }
}

/// The addresses of one column, rows `r0..=r1`, in row-ascending order.
pub open spec fn col_addrs(col: i32, r0: int, r1: int) -> Seq<SheetAddress>
    decreases r1 - r0 + 1,
{
    if r0 > r1 || r0 < i32::MIN || r1 > i32::MAX {
        Seq::empty()
    } else {
        seq![SheetAddress { row: r0 as i32, col }] + col_addrs(col, r0 + 1, r1)
    }
}

/// All addresses of the rectangle rows `r0..=r1` × columns `c0..=c1`, in
/// row-major order.
pub open spec fn rect_addrs(r0: int, r1: int, c0: int, c1: int) -> Seq<SheetAddress>
    decreases r1 - r0 + 1,
{
    if r0 > r1 || r0 < i32::MIN || r1 > i32::MAX {
        Seq::empty()
    } else {
        row_addrs(r0 as i32, c0, c1) + rect_addrs(r0 + 1, r1, c0, c1)
    }
}

proof fn lemma_row_addrs_index(row: i32, c0: int, c1: int)
    requires
        i32::MIN <= c0,
        c1 <= i32::MAX,
    ensures
        row_addrs(row, c0, c1).len() == if c0 <= c1 { c1 - c0 + 1 } else { 0 },
        forall|k: int|
            0 <= k < row_addrs(row, c0, c1).len() ==> #[trigger] row_addrs(row, c0, c1)[k]
                == (SheetAddress { row, col: (c0 + k) as i32 }),
    decreases c1 - c0 + 1,
{
    if c0 <= c1 {
        lemma_row_addrs_index(row, c0 + 1, c1);
    }
}

proof fn lemma_col_addrs_index(col: i32, r0: int, r1: int)
    requires
        i32::MIN <= r0,
        r1 <= i32::MAX,
    ensures
        col_addrs(col, r0, r1).len() == if r0 <= r1 { r1 - r0 + 1 } else { 0 },
        forall|k: int|
            0 <= k < col_addrs(col, r0, r1).len() ==> #[trigger] col_addrs(col, r0, r1)[k]
                == (SheetAddress { row: (r0 + k) as i32, col }),
    decreases r1 - r0 + 1,
{
    if r0 <= r1 {
        lemma_col_addrs_index(col, r0 + 1, r1);
    }
}

proof fn lemma_rect_len(r0: int, r1: int, c0: int, c1: int)
    requires
        i32::MIN <= r0,
        r1 <= i32::MAX,
        i32::MIN <= c0,
        c1 <= i32::MAX,
        c0 <= c1,
    ensures
        r0 <= r1 ==> rect_addrs(r0, r1, c0, c1).len() == (r1 - r0 + 1) * (c1 - c0 + 1),
        r0 > r1 ==> rect_addrs(r0, r1, c0, c1).len() == 0,
    decreases r1 - r0 + 1,
{
    if r0 <= r1 {
        let w = c1 - c0 + 1;
        lemma_rect_len(r0 + 1, r1, c0, c1);
        lemma_row_addrs_index(r0 as i32, c0, c1);
        assert(rect_addrs(r0, r1, c0, c1) == row_addrs(r0 as i32, c0, c1) + rect_addrs(
            r0 + 1,
            r1,
            c0,
            c1,
        ));
        assert(row_addrs(r0 as i32, c0, c1).len() == w);
        if r0 + 1 <= r1 {
            assert(rect_addrs(r0 + 1, r1, c0, c1).len() == (r1 - (r0 + 1) + 1) * (c1 - c0 + 1));
            assert((r1 - (r0 + 1) + 1) * (c1 - c0 + 1) == (r1 - r0) * w) by (nonlinear_arith)
                requires
                    w == c1 - c0 + 1,
            ;
        } else {
            assert(rect_addrs(r0 + 1, r1, c0, c1).len() == 0);
            assert((r1 - r0) * w == 0) by (nonlinear_arith)
                requires
                    r1 == r0,
            ;
        }
        assert((r1 - r0 + 1) * w == w + (r1 - r0) * w) by (nonlinear_arith);
    }
}

/// Appending the next row on the right of a rectangle.
proof fn lemma_rect_snoc(r0: int, r1: int, c0: int, c1: int)
    requires
        i32::MIN <= r0 <= r1 <= i32::MAX,
    ensures
        rect_addrs(r0, r1, c0, c1) == rect_addrs(r0, r1 - 1, c0, c1) + row_addrs(
            r1 as i32,
            c0,
            c1,
        ),
    decreases r1 - r0 + 1,
{
    if r0 == r1 {
        assert(rect_addrs(r0, r1 - 1, c0, c1) == Seq::<SheetAddress>::empty());
        assert(rect_addrs(r0, r1, c0, c1) == row_addrs(r0 as i32, c0, c1) + rect_addrs(
            r0 + 1,
            r1,
            c0,
            c1,
        ));
        assert(rect_addrs(r0 + 1, r1, c0, c1) == Seq::<SheetAddress>::empty());
        assert(rect_addrs(r0, r1, c0, c1) =~= rect_addrs(r0, r1 - 1, c0, c1) + row_addrs(
            r1 as i32,
            c0,
            c1,
        ));
    } else {
        lemma_rect_snoc(r0 + 1, r1, c0, c1);
        assert(rect_addrs(r0, r1, c0, c1) =~= rect_addrs(r0, r1 - 1, c0, c1) + row_addrs(
            r1 as i32,
            c0,
            c1,
        ));
    }
}

impl SheetRange {
    /// A range is valid when `end` is at or below and at or right of `start`.
    pub open spec fn spec_valid(self) -> bool {
        self.end.row >= self.start.row && self.end.col >= self.start.col
    }

    pub open spec fn spec_height(self) -> int {
        self.end.row - self.start.row + 1
    }

    pub open spec fn spec_width(self) -> int {
        self.end.col - self.start.col + 1
    }

    /// `a` lies within the range, componentwise.
    pub open spec fn in_range(self, a: SheetAddress) -> bool {
        self.start.row <= a.row <= self.end.row && self.start.col <= a.col <= self.end.col
    }

    /// All addresses of the range in row-major order; empty when invalid.
    pub open spec fn flat_seq(self) -> Seq<SheetAddress> {
        if self.spec_valid() {
            rect_addrs(self.start.row as int, self.end.row as int, self.start.col as int,
                self.end.col as int)
        } else {
            Seq::empty()
        }
    }

    pub fn is_valid(&self) -> (r: bool)
        ensures
            r == self.spec_valid(),
    {
        self.end.row >= self.start.row && self.end.col >= self.start.col
    }
}

/// Every address yielded by `addresses_flat` lies within the range
/// componentwise, every address of the rectangle is yielded, none is
/// yielded twice, and the count is the full Cartesian product
/// `[start.row, end.row] × [start.col, end.col]`.
pub proof fn lemma_flat_addresses_are_the_rectangle(r: SheetRange)
    requires
        r.spec_valid(),
    ensures
        forall|i: int| 0 <= i < r.flat_seq().len() ==> r.in_range(#[trigger] r.flat_seq()[i]),
        forall|a: SheetAddress| r.in_range(a) ==> r.flat_seq().contains(a),
        r.flat_seq().no_duplicates(),
        r.flat_seq().len() == r.spec_height() * r.spec_width(),
{
    lemma_rect_is_rectangle(r.start.row as int, r.end.row as int, r.start.col as int,
        r.end.col as int);
    lemma_rect_len(r.start.row as int, r.end.row as int, r.start.col as int, r.end.col as int);
}

proof fn lemma_rect_is_rectangle(r0: int, r1: int, c0: int, c1: int)
    requires
        i32::MIN <= r0,
        r1 <= i32::MAX,
        i32::MIN <= c0,
        c1 <= i32::MAX,
        c0 <= c1,
    ensures
        forall|i: int|
            0 <= i < rect_addrs(r0, r1, c0, c1).len() ==> {
                let a = #[trigger] rect_addrs(r0, r1, c0, c1)[i];
                r0 <= a.row <= r1 && c0 <= a.col <= c1
            },
        forall|a: SheetAddress|
            r0 <= a.row <= r1 && c0 <= a.col <= c1 ==> rect_addrs(r0, r1, c0, c1).contains(a),
        rect_addrs(r0, r1, c0, c1).no_duplicates(),
    decreases r1 - r0 + 1,
{
    if r0 > r1 {
    } else {
        lemma_rect_is_rectangle(r0 + 1, r1, c0, c1);
        lemma_row_addrs_index(r0 as i32, c0, c1);
        let head = row_addrs(r0 as i32, c0, c1);
        let tail = rect_addrs(r0 + 1, r1, c0, c1);
        let whole = rect_addrs(r0, r1, c0, c1);
        assert(whole == head + tail);
        // membership: an in-rectangle address is in the head row or in the tail
        assert forall|a: SheetAddress| r0 <= a.row <= r1 && c0 <= a.col <= c1 implies
            whole.contains(a) by {
            if a.row == r0 {
                assert(head[a.col - c0] == a);
                assert(whole[a.col - c0] == a);
            } else {
                assert(tail.contains(a));
                let j = choose|j: int| 0 <= j < tail.len() && tail[j] == a;
                assert(whole[head.len() + j] == a);
            }
        }
        // no duplicates: head has distinct columns, tail rows are all > r0
        assert forall|i: int, j: int| 0 <= i < j < whole.len() implies whole[i] != whole[j] by {
            if j < head.len() {
                assert(whole[i] == head[i] && whole[j] == head[j]);
            } else if i >= head.len() {
                assert(whole[i] == tail[i - head.len()] && whole[j] == tail[j - head.len()]);
            } else {
                assert(whole[i] == head[i] && whole[j] == tail[j - head.len()]);
                assert(whole[i].row == r0);
                assert(whole[j].row > r0);
            }
        }
    }
}

/// Yields the addresses of a one-dimensional range (a single row or a
/// single column), in ascending order along the varying axis.
pub struct SheetRangeAddresses1D {
    addrs: Vec<SheetAddress>,
    pos: usize,
}

impl SheetRangeAddresses1D {
    /// The addresses not yet yielded.
    pub closed spec fn remaining(self) -> Seq<SheetAddress> {
        self.addrs@.skip(self.pos as int)
    }

    pub closed spec fn wf(self) -> bool {
        self.pos <= self.addrs.len()
    }

    fn from_vec(addrs: Vec<SheetAddress>) -> (r: Self)
        ensures
            r.remaining() == addrs@,
            r.wf(),
    {
        let r = Self { addrs, pos: 0 };
        proof {
            assert(r.remaining() =~= r.addrs@);
        }
        r
    }

    pub fn next(&mut self) -> (r: Option<SheetAddress>)
        requires
            old(self).wf(),
        ensures
            final(self).wf(),
            old(self).remaining().len() > 0 ==> r == Some(old(self).remaining()[0])
                && final(self).remaining() == old(self).remaining().skip(1),
            old(self).remaining().len() == 0 ==> r is None && final(self).remaining()
                == old(self).remaining(),
    {
        if self.pos < self.addrs.len() {
            let a = self.addrs[self.pos];
            self.pos = self.pos + 1;
            proof {
                assert(final(self).remaining() =~= old(self).remaining().skip(1));
                assert(a == old(self).remaining()[0]);
            }
            Some(a)
        } else {
            proof {
                assert(old(self).remaining().len() == 0);
            }
            None
        }
    }
}

fn copy_addrs(v: &Vec<SheetAddress>) -> (r: Vec<SheetAddress>)
    ensures
        r@ == v@,
{
    let mut r: Vec<SheetAddress> = Vec::new();
    let mut i: usize = 0;
    while i < v.len()
        invariant
            i <= v.len(),
            r@ == v@.take(i as int),
        decreases v.len() - i,
    {
        r.push(v[i]);
        proof {
            assert(r@ =~= v@.take(i + 1));
        }
        i = i + 1;
    }
    proof {
        assert(r@ =~= v@);
    }
    r
}

/// Yields the rows of a two-dimensional range, top to bottom; each row is
/// itself a one-dimensional address iterator.
pub struct SheetRangeAddresses2D {
    rows: Vec<SheetRangeAddresses1D>,
    pos: usize,
}

impl SheetRangeAddresses2D {
    /// The address rows not yet yielded.
    pub closed spec fn remaining_rows(self) -> Seq<Seq<SheetAddress>> {
        self.rows@.skip(self.pos as int).map_values(|it: SheetRangeAddresses1D| it.remaining())
    }

    pub closed spec fn wf(self) -> bool {
        self.pos <= self.rows.len() && forall|i: int|
            0 <= i < self.rows@.len() ==> (#[trigger] self.rows@[i]).wf()
    }

    pub fn next(&mut self) -> (r: Option<SheetRangeAddresses1D>)
        requires
            old(self).wf(),
        ensures
            final(self).wf(),
            old(self).remaining_rows().len() > 0 ==> (r matches Some(it) && it.wf()
                && it.remaining() == old(self).remaining_rows()[0]
                && final(self).remaining_rows() == old(self).remaining_rows().skip(1)),
            old(self).remaining_rows().len() == 0 ==> r is None && final(self).remaining_rows()
                == old(self).remaining_rows(),
    {
        if self.pos < self.rows.len() {
            let row = SheetRangeAddresses1D {
                addrs: copy_addrs(&self.rows[self.pos].addrs),
                pos: self.rows[self.pos].pos,
            };
            self.pos = self.pos + 1;
            proof {
                assert(row.remaining() == old(self).remaining_rows()[0]);
                assert(final(self).remaining_rows() =~= old(self).remaining_rows().skip(1));
            }
            Some(row)
        } else {
            proof {
                assert(old(self).remaining_rows().len() == 0);
            }
            None
        }
    }
}

/// The shape-aware view of a range's addresses: a single address, one row
/// or column, or a grid of rows.
pub enum SheetRangeShapedAddresses {
    Single { address: SheetAddress },
    Addresses1D(SheetRangeAddresses1D),
    Addresses2D(SheetRangeAddresses2D),
}

/// Yields all addresses of a range in row-major order, whatever its shape.
pub struct SheetRangeFlatAddresses {
    addrs: Vec<SheetAddress>,
    pos: usize,
}

impl SheetRangeFlatAddresses {
    /// The addresses not yet yielded.
    pub closed spec fn remaining(self) -> Seq<SheetAddress> {
        self.addrs@.skip(self.pos as int)
    }

    pub closed spec fn wf(self) -> bool {
        self.pos <= self.addrs.len()
    }

    pub fn new(range: &SheetRange) -> (r: Self)
        ensures
            r.remaining() == range.flat_seq(),
            r.wf(),
    {
        let addrs = build_rect(range);
        let r = Self { addrs, pos: 0 };
        proof {
            assert(r.remaining() =~= r.addrs@);
        }
        r
    }

    pub fn next(&mut self) -> (r: Option<SheetAddress>)
        requires
            old(self).wf(),
        ensures
            final(self).wf(),
            old(self).remaining().len() > 0 ==> r == Some(old(self).remaining()[0])
                && final(self).remaining() == old(self).remaining().skip(1),
            old(self).remaining().len() == 0 ==> r is None && final(self).remaining()
                == old(self).remaining(),
    {
        if self.pos < self.addrs.len() {
            let a = self.addrs[self.pos];
            self.pos = self.pos + 1;
            proof {
                assert(final(self).remaining() =~= old(self).remaining().skip(1));
                assert(a == old(self).remaining()[0]);
            }
            Some(a)
        } else {
            proof {
                assert(old(self).remaining().len() == 0);
            }
            None
        }
    }
}

/// One row of addresses, columns `c0..=c1` of row `row`, as a vector.
fn build_row(row: i32, c0: i32, c1: i32) -> (v: Vec<SheetAddress>)
    ensures
        v@ == row_addrs(row, c0 as int, c1 as int),
{
    let mut v: Vec<SheetAddress> = Vec::new();
    proof {
        lemma_row_addrs_index(row, c0 as int, c1 as int);
    }
    if c0 > c1 {
        proof {
            assert(v@ =~= row_addrs(row, c0 as int, c1 as int));
        }
        return v;
    }
    let mut c: i64 = c0 as i64;
    while c <= c1 as i64
        invariant
            c0 as int <= c <= c1 as int + 1,
            v@.len() == c - c0 as int,
            forall|k: int|
                0 <= k < v@.len() ==> #[trigger] v@[k] == (SheetAddress {
                    row,
                    col: (c0 + k) as i32,
                }),
        decreases c1 as int + 1 - c,
    {
        v.push(SheetAddress { row, col: c as i32 });
        c = c + 1;
    }
    proof {
        if c0 <= c1 {
            assert(v@ =~= row_addrs(row, c0 as int, c1 as int));
        } else {
            assert(v@ =~= row_addrs(row, c0 as int, c1 as int));
        }
    }
    v
}

/// One column of addresses, rows `r0..=r1` of column `col`, as a vector.
fn build_col(col: i32, r0: i32, r1: i32) -> (v: Vec<SheetAddress>)
    ensures
        v@ == col_addrs(col, r0 as int, r1 as int),
{
    let mut v: Vec<SheetAddress> = Vec::new();
    proof {
        lemma_col_addrs_index(col, r0 as int, r1 as int);
    }
    if r0 > r1 {
        proof {
            assert(v@ =~= col_addrs(col, r0 as int, r1 as int));
        }
        return v;
    }
    let mut r: i64 = r0 as i64;
    while r <= r1 as i64
        invariant
            r0 as int <= r <= r1 as int + 1,
            v@.len() == r - r0 as int,
            forall|k: int|
                0 <= k < v@.len() ==> #[trigger] v@[k] == (SheetAddress {
                    row: (r0 + k) as i32,
                    col,
                }),
        decreases r1 as int + 1 - r,
    {
        v.push(SheetAddress { row: r as i32, col });
        r = r + 1;
    }
    proof {
        assert(v@ =~= col_addrs(col, r0 as int, r1 as int));
    }
    v
}

/// All addresses of the range in row-major order, as a vector.
fn build_rect(range: &SheetRange) -> (v: Vec<SheetAddress>)
    ensures
        v@ == range.flat_seq(),
{
    let mut v: Vec<SheetAddress> = Vec::new();
    if !range.is_valid() {
        proof {
            assert(v@ =~= range.flat_seq());
        }
        return v;
    }
    let r0 = range.start.row;
    let r1 = range.end.row;
    let c0 = range.start.col;
    let c1 = range.end.col;
    let mut r: i64 = r0 as i64;
    while r <= r1 as i64
        invariant
            r0 as int <= r <= r1 as int + 1,
            c0 <= c1,
            i32::MIN as int <= r0 as int,
            r1 as int <= i32::MAX as int,
            v@ == rect_addrs(r0 as int, r - 1, c0 as int, c1 as int),
        decreases r1 as int + 1 - r,
    {
        let mut row_v = build_row(r as i32, c0, c1);
        v.append(&mut row_v);
        proof {
            lemma_rect_snoc(r0 as int, r as int, c0 as int, c1 as int);
        }
        r = r + 1;
    }
    proof {
        assert(v@ == rect_addrs(r0 as int, r1 as int, c0 as int, c1 as int));
    }
    v
}

/// An alphabetic column letter, `A`..`Z` in either case.
pub open spec fn is_alpha_char(c: char) -> bool {
    ('a' as int <= c as int && c as int <= 'z' as int) || ('A' as int <= c as int && c as int
        <= 'Z' as int)
}

/// The zero-based column index of a column letter: `a`/`A` is 0, `z`/`Z` is 25.
pub open spec fn col_index_of(c: char) -> int {
    if 'a' as int <= c as int && c as int <= 'z' as int {
        c as int - 'a' as int
    } else {
        c as int - 'A' as int
    }
}

/// The address grammar at position `i` of `s`: one column letter, then one
/// or more digits read as a decimal row number at least 1 and at most
/// `i32::MAX`; the stored row is the number less one. Yields the address
/// and the position after the digits.
pub open spec fn parse_address_spec(s: Seq<char>, i: int) -> Option<(SheetAddress, int)> {
    if 0 <= i < s.len() && is_alpha_char(s[i]) {
        let j = digit_run_end(s, i + 1);
        let v = digits_val(s, i + 1, j);
        if j > i + 1 && 1 <= v <= i32::MAX {
            Some(
                (SheetAddress { row: (v - 1) as i32, col: col_index_of(s[i]) as i32 }, j),
            )
        } else {
            None
        }
    } else {
        None
    }
}

/// The range grammar: an address, optionally followed by `-` and a second
/// address. Trailing text after the parsed prefix is ignored; when the
/// second address fails to parse, the single-address reading is taken.
pub open spec fn parse_range_spec(s: Seq<char>) -> Option<SheetRange> {
    match parse_address_spec(s, 0) {
        Option::None => Option::None,
        Option::Some((a1, j)) => {
            if j < s.len() && s[j] == '-' && parse_address_spec(s, j + 1) is Some {
                let (a2, _k) = parse_address_spec(s, j + 1)->Some_0;
                Option::Some(SheetRange { start: a1, end: a2 })
            } else {
                Option::Some(SheetRange { start: a1, end: a1 })
            }
        },
    }
}

fn digit_at(s: &str, j: usize) -> (r: bool)
    requires
        j < s@.len(),
    ensures
        r == is_digit_char(s@[j as int]),
{
    let d = s.get_char(j);
    d >= '0' && d <= '9'
}

/// Parses an address at position `i`; on success also returns the position
/// after it.
fn parse_address_at(s: &str, i: usize, n: usize) -> (r: Option<(SheetAddress, usize)>)
    requires
        n == s@.len(),
        i <= n,
    ensures
        r matches Some((a, j)) ==> parse_address_spec(s@, i as int) == Some((a, j as int))
            && j <= n,
        r is None ==> parse_address_spec(s@, i as int) is None,
{
    if i >= n {
        return None;
    }
    let c = s.get_char(i);
    let is_lower = c >= 'a' && c <= 'z';
    let is_upper = c >= 'A' && c <= 'Z';
    if !is_lower && !is_upper {
        return None;
    }
    let col: i32 = if is_lower {
        (c as u32 - 'a' as u32) as i32
    } else {
        (c as u32 - 'A' as u32) as i32
    };
    assert(col as int == col_index_of(s@[i as int]));
    // scan the digit run
    let mut j: usize = i + 1;
    while j < n && digit_at(s, j)
        invariant
            n == s@.len(),
            i + 1 <= j <= n,
            forall|k: int| i + 1 <= k < j ==> is_digit_char(#[trigger] s@[k]),
        decreases n - j,
    {
        j = j + 1;
    }
    proof {
        lemma_digit_run_end_exact(s@, i + 1, j as int);
    }
    if j == i + 1 {
        return None;
    }
    // accumulate the decimal value, stopping once it exceeds i32::MAX
    let mut v: i64 = 0;
    let mut k: usize = i + 1;
    while k < j
        invariant
            n == s@.len(),
            i + 1 < j <= n,
            i + 1 <= k <= j,
            is_alpha_char(s@[i as int]),
            col as int == col_index_of(s@[i as int]),
            digit_run_end(s@, i + 1 as int) == j as int,
            forall|m: int| i + 1 <= m < j ==> is_digit_char(#[trigger] s@[m]),
            0 <= v <= i32::MAX,
            v == digits_val(s@, i + 1 as int, k as int),
        decreases j - k,
    {
        let d = s.get_char(k);
        let dv: i64 = (d as u32 - '0' as u32) as i64;
        let next = v * 10 + dv;
        proof {
            assert(digits_val(s@, i + 1 as int, k + 1 as int) == digits_val(s@, i + 1 as int,
                k as int) * 10 + (s@[k as int] as int - '0' as int));
        }
        if next > i32::MAX as i64 {
            proof {
                assert(s@[k as int] == d);
                assert(is_digit_char(s@[k as int]));
                assert(dv == s@[k as int] as int - '0' as int);
                assert(next == digits_val(s@, i + 1 as int, k + 1 as int));
                lemma_digits_val_mono(s@, i + 1 as int, k + 1 as int, j as int);
                assert(digits_val(s@, i + 1 as int, j as int) > i32::MAX);
                assert(digit_run_end(s@, i + 1 as int) == j as int);
                assert(parse_address_spec(s@, i as int) is None);
            }
            return None;
        }
        v = next;
        k = k + 1;
    }
    if v < 1 {
        return None;
    }
    let a = SheetAddress { row: (v - 1) as i32, col };
    Some((a, j))
}

impl SheetRange {
    /// Parses a range from text: a single address (`a2`) or two addresses
    /// joined by `-` (`a2-c6`). A parse failure or an inverted range is an
    /// error; text after the parsed prefix is ignored.
    pub fn parse(input: &str) -> (r: AppResult<SheetRange>)
        ensures
            r matches Ok(rng) ==> parse_range_spec(input@) == Some(rng) && rng.spec_valid(),
            (r is Ok) <==> (parse_range_spec(input@) matches Some(g) && g.spec_valid()),
            r matches Err(e) ==> e.text() == (if parse_range_spec(input@) is None {
                "Invalid range: failed to parse"@
            } else {
                "Invalid range: end must be bottom-right from start"@
            }),
    {
        let n = input.unicode_len();
        let rng = match parse_address_at(input, 0, n) {
            None => {
                return Err(AppError::new("Invalid range: failed to parse"));
            },
            Some((a1, j)) => {
                let second = if j < n && input.get_char(j) == '-' {
                    parse_address_at(input, j + 1, n)
                } else {
                    None
                };
                match second {
                    Some((a2, _)) => SheetRange { start: a1, end: a2 },
                    None => SheetRange { start: a1, end: a1 },
                }
            },
        };
        if !rng.is_valid() {
            return Err(AppError::new("Invalid range: end must be bottom-right from start"));
        }
        Ok(rng)
    }
}

impl SheetRange {
    /// Classifies the range by shape and returns the matching address
    /// iterator. The classification is total and exclusive: a single
    /// address exactly when `start == end`; one-dimensional exactly when
    /// exactly one axis is fixed; two-dimensional otherwise.
    pub fn addresses_shaped(&self) -> (r: SheetRangeShapedAddresses)
        ensures
            r is Single <==> self.start == self.end,
            r is Addresses1D <==> (self.start != self.end && (self.start.row == self.end.row
                || self.start.col == self.end.col)),
            r is Addresses2D <==> (self.start.row != self.end.row && self.start.col
                != self.end.col),
            r matches SheetRangeShapedAddresses::Single { address } ==> address == self.start,
            r matches SheetRangeShapedAddresses::Addresses1D(it) ==> it.wf() && it.remaining()
                == (if self.start.row == self.end.row {
                row_addrs(self.start.row, self.start.col as int, self.end.col as int)
            } else {
                col_addrs(self.start.col, self.start.row as int, self.end.row as int)
            }),
            r matches SheetRangeShapedAddresses::Addresses2D(it) ==> it.wf()
                && it.remaining_rows().len() == (if self.spec_valid() {
                self.spec_height()
            } else {
                0
            }) && (forall|i: int|
                0 <= i < it.remaining_rows().len() ==> #[trigger] it.remaining_rows()[i]
                    == row_addrs((self.start.row + i) as i32, self.start.col as int,
                    self.end.col as int)),
    {
        if self.start.eq(&self.end) {
            SheetRangeShapedAddresses::Single { address: self.start }
        } else if self.start.row == self.end.row {
            SheetRangeShapedAddresses::Addresses1D(SheetRangeAddresses1D::from_vec(
                build_row(self.start.row, self.start.col, self.end.col),
            ))
        } else if self.start.col == self.end.col {
            SheetRangeShapedAddresses::Addresses1D(SheetRangeAddresses1D::from_vec(
                build_col(self.start.col, self.start.row, self.end.row),
            ))
        } else {
            let mut rows: Vec<SheetRangeAddresses1D> = Vec::new();
            if self.is_valid() {
                let r0 = self.start.row;
                let r1 = self.end.row;
                let mut r: i64 = r0 as i64;
                while r <= r1 as i64
                    invariant
                        r0 as int <= r <= r1 as int + 1,
                        self.start.col <= self.end.col,
                        i32::MIN as int <= r0 as int,
                        r1 as int <= i32::MAX as int,
                        rows@.len() == r - r0 as int,
                        forall|i: int|
                            0 <= i < rows@.len() ==> (#[trigger] rows@[i]).wf()
                                && rows@[i].remaining() == row_addrs((r0 as int + i) as i32,
                                self.start.col as int, self.end.col as int),
                    decreases r1 as int + 1 - r,
                {
                    let row_it = SheetRangeAddresses1D::from_vec(
                        build_row(r as i32, self.start.col, self.end.col),
                    );
                    rows.push(row_it);
                    r = r + 1;
                }
            }
            let it = SheetRangeAddresses2D { rows, pos: 0 };
            proof {
                assert(it.remaining_rows() =~= it.rows@.map_values(
                    |x: SheetRangeAddresses1D| x.remaining(),
                ));
            }
            SheetRangeShapedAddresses::Addresses2D(it)
        }
    }

    /// An un-shaped iterator over all addresses of the range, row-major.
    pub fn addresses_flat(&self) -> (r: SheetRangeFlatAddresses)
        ensures
            r.wf(),
            r.remaining() == self.flat_seq(),
    {
        SheetRangeFlatAddresses::new(self)
    }
}

} // verus!
