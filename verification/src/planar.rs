//! The layout of the solvers: each row of a canvas as planes, one for each column of
//! an MCU, a plane holding that column of every MCU across.
//!
//! An MCU is `R x P` samples of the canvas, `P = 8 a` and `R = 8 b` for the largest
//! ratios of cells `a` across and `b` down, so that every component's blocks tile it.
//! The canvas's `W = P M` columns are `M` MCUs across; column `c` of a row is at
//! `(c mod P) M + (c div P)` in the row, and the rows follow one another.
//!
//! A component's coefficients are laid out alike, block row by block row: coefficient
//! `(v, u)` of block `h m + t` of a block row, `t < h` its place in the MCU, is at
//! `(v P_c + 8 t + u) M + m`, where `P_c = P / a_c` are the component's columns in an
//! MCU. Blocks that the component does not have -- beyond its last block of a row, in
//! the last MCU -- have places that nothing reads.
use vstd::prelude::*;
use vstd::arithmetic::div_mod::*;

use crate::error::{add_number, add_text, decimal, text, Error};

verus! {

/// The samples of a block across and down.
pub const BLOCK: usize = 8;

/// The samples, and the coefficients, of a block.
pub const BLOCK_SIZE: usize = 64;

// ---------------------------------------------------------------------------
// Division with remainder.
// ---------------------------------------------------------------------------

/// `x = (x / d) d + x mod d`, with the remainder in `[0, d)`.
proof fn lemma_split(x: int, d: int)
    requires
        0 <= x,
        0 < d,
    ensures
        x == (x / d) * d + x % d,
        0 <= x % d < d,
        0 <= x / d,
{
    lemma_fundamental_div_mod(x, d);
    lemma_mod_pos_bound(x, d);
    lemma_div_pos_is_pos(x, d);
    assert(d * (x / d) == (x / d) * d) by (nonlinear_arith);
}

/// Quotient and remainder are the only ones: `x = q d + r` with `r` in `[0, d)`.
proof fn lemma_unique(x: int, d: int, q: int, r: int)
    requires
        0 < d,
        0 <= r < d,
        x == q * d + r,
    ensures
        q == x / d,
        r == x % d,
{
    lemma_fundamental_div_mod_converse(x, d, q, r);
}

/// `a < n` and `b < m` give `a m + b < n m`.
proof fn lemma_mixed_below(a: int, b: int, n: int, m: int)
    requires
        0 <= a < n,
        0 <= b < m,
    ensures
        0 <= a * m + b < n * m,
{
    assert(0 <= a * m) by (nonlinear_arith)
        requires
            0 <= a,
            0 <= m,
    ;
    assert((a + 1) * m <= n * m) by (nonlinear_arith)
        requires
            a + 1 <= n,
            0 <= m,
    ;
    assert((a + 1) * m == a * m + m) by (nonlinear_arith);
}

// ---------------------------------------------------------------------------
// The columns of a row.
// ---------------------------------------------------------------------------

/// Where column `column` of a row of `planes * across` columns is in the row:
/// `(c mod P) M + (c div P)`.
pub open spec fn column_place(planes: int, across: int, column: int) -> int {
    (column % planes) * across + column / planes
}

/// The column of a row whose value is at `place`: `(q mod M) P + (q div M)`.
pub open spec fn column_at(planes: int, across: int, place: int) -> int {
    (place % across) * planes + place / across
}

/// A column's place is in the row, and gives the column back.
pub proof fn lemma_column_place(planes: int, across: int, column: int)
    requires
        0 < planes,
        0 < across,
        0 <= column < planes * across,
    ensures
        0 <= column_place(planes, across, column) < planes * across,
        column_at(planes, across, column_place(planes, across, column)) == column,
{
    lemma_split(column, planes);
    let (m, p) = (column / planes, column % planes);
    assert(m < across) by (nonlinear_arith)
        requires
            column == m * planes + p,
            0 <= p,
            column < planes * across,
            0 < planes,
    ;
    lemma_mixed_below(p, m, planes, across);
    assert(planes * across == across * planes) by (nonlinear_arith);
    let place = p * across + m;
    lemma_unique(place, across, p, m);
}

/// A place in the row holds a column, whose place it is.
pub proof fn lemma_column_at(planes: int, across: int, place: int)
    requires
        0 < planes,
        0 < across,
        0 <= place < planes * across,
    ensures
        0 <= column_at(planes, across, place) < planes * across,
        column_place(planes, across, column_at(planes, across, place)) == place,
{
    lemma_split(place, across);
    let (p, m) = (place / across, place % across);
    assert(p < planes) by (nonlinear_arith)
        requires
            place == p * across + m,
            0 <= m,
            place < planes * across,
            0 < across,
    ;
    lemma_mixed_below(m, p, across, planes);
    assert(planes * across == across * planes) by (nonlinear_arith);
    let column = m * planes + p;
    lemma_unique(column, planes, m, p);
}

// ---------------------------------------------------------------------------
// The coefficients of a component.
// ---------------------------------------------------------------------------

/// The values of one block row of a component of `sets` blocks across an MCU in the
/// planes of `across` MCUs: `8 P_c M`, with `P_c = 8 sets`.
pub open spec fn block_row_of(sets: int, across: int) -> int {
    8 * (8 * sets) * across
}

/// Where value `index` of a component in natural order (64 to a block, block rows
/// from the top, `columns` blocks to a block row) is in the planes.
pub open spec fn coefficient_place_of(sets: int, columns: int, across: int, index: int) -> int {
    let block = index / 64;
    let within = index % 64;
    let row = block / columns;
    let column = block % columns;
    let v = within / 8;
    let u = within % 8;
    let mcu = column / sets;
    let set = column % sets;
    row * block_row_of(sets, across) + (v * (8 * sets) + 8 * set + u) * across + mcu
}

/// The value in natural order that a place of the planes holds: `None` at the places
/// of blocks that the component does not have.
pub open spec fn value_at(sets: int, columns: int, across: int, place: int) -> Option<int> {
    let row = place / block_row_of(sets, across);
    let within_row = place % block_row_of(sets, across);
    let mcu = within_row % across;
    let k = within_row / across;
    let v = k / (8 * sets);
    let set = (k % (8 * sets)) / 8;
    let u = (k % (8 * sets)) % 8;
    let column = mcu * sets + set;
    if column < columns {
        Some((row * columns + column) * 64 + v * 8 + u)
    } else {
        None
    }
}

/// What a component's layout asks: blocks in sets, every block of a row in one of the
/// MCUs across.
pub open spec fn tiles(sets: int, columns: int, across: int) -> bool {
    &&& 0 < sets
    &&& 0 < columns
    &&& 0 < across
    &&& columns <= sets * across
}

/// Every value in natural order has a place in the planes, which holds it.
pub proof fn lemma_coefficient_place(sets: int, columns: int, across: int, rows: int, index: int)
    requires
        tiles(sets, columns, across),
        0 <= index < rows * columns * 64,
    ensures
        0 <= coefficient_place_of(sets, columns, across, index) < rows * block_row_of(sets, across),
        value_at(sets, columns, across, coefficient_place_of(sets, columns, across, index))
            == Some(index),
{
    let planes = 8 * sets;
    let br = block_row_of(sets, across);
    lemma_split(index, 64);
    let (block, within) = (index / 64, index % 64);
    assert(block < rows * columns) by (nonlinear_arith)
        requires
            index == block * 64 + within,
            0 <= within,
            index < rows * columns * 64,
    ;
    lemma_split(block, columns);
    let (row, column) = (block / columns, block % columns);
    assert(row < rows) by (nonlinear_arith)
        requires
            block == row * columns + column,
            0 <= column,
            block < rows * columns,
            0 < columns,
    ;
    lemma_split(within, 8);
    let (v, u) = (within / 8, within % 8);
    lemma_split(column, sets);
    let (mcu, set) = (column / sets, column % sets);
    assert(mcu < across) by (nonlinear_arith)
        requires
            column == mcu * sets + set,
            0 <= set,
            column < columns,
            columns <= sets * across,
            0 < sets,
    ;
    // The place within the MCU's column of planes.
    let k2 = 8 * set + u;
    assert(0 <= k2 < planes);
    lemma_mixed_below(v, k2, 8, planes);
    let k = v * planes + k2;
    assert(8 * planes == planes * 8) by (nonlinear_arith);
    lemma_mixed_below(k, mcu, 8 * planes, across);
    let q = k * across + mcu;
    assert(br == 8 * planes * across);
    lemma_mixed_below(row, q, rows, br);
    let place = row * br + q;
    assert(place == coefficient_place_of(sets, columns, across, index));
    // And back.
    lemma_unique(place, br, row, q);
    lemma_unique(q, across, k, mcu);
    lemma_unique(k, planes, v, k2);
    lemma_unique(k2, 8, set, u);
    assert(mcu * sets + set == column);
    assert((row * columns + column) * 64 + v * 8 + u == index) by (nonlinear_arith)
        requires
            index == block * 64 + within,
            block == row * columns + column,
            within == v * 8 + u,
    ;
}

/// A place of the planes that holds a value in natural order is that value's place.
pub proof fn lemma_value_at(sets: int, columns: int, across: int, rows: int, place: int)
    requires
        tiles(sets, columns, across),
        0 <= place < rows * block_row_of(sets, across),
    ensures
        value_at(sets, columns, across, place) matches Some(index) ==> {
            &&& 0 <= index < rows * columns * 64
            &&& coefficient_place_of(sets, columns, across, index) == place
        },
{
    let planes = 8 * sets;
    let br = block_row_of(sets, across);
    assert(0 < br) by (nonlinear_arith)
        requires
            br == 8 * (8 * sets) * across,
            0 < sets,
            0 < across,
    ;
    lemma_split(place, br);
    let (row, q) = (place / br, place % br);
    assert(row < rows) by (nonlinear_arith)
        requires
            place == row * br + q,
            0 <= q,
            place < rows * br,
            0 < br,
    ;
    lemma_split(q, across);
    let (k, mcu) = (q / across, q % across);
    assert(k < 8 * planes) by (nonlinear_arith)
        requires
            q == k * across + mcu,
            0 <= mcu,
            q < br,
            br == 8 * planes * across,
            0 < across,
    ;
    lemma_split(k, planes);
    let (v, k2) = (k / planes, k % planes);
    assert(v < 8) by (nonlinear_arith)
        requires
            k == v * planes + k2,
            0 <= k2,
            k < 8 * planes,
            0 < planes,
    ;
    lemma_split(k2, 8);
    let (set, u) = (k2 / 8, k2 % 8);
    assert(set < sets);
    let column = mcu * sets + set;
    if column < columns {
        let index = (row * columns + column) * 64 + v * 8 + u;
        lemma_mixed_below(row, column, rows, columns);
        let block = row * columns + column;
        let within = v * 8 + u;
        assert(0 <= within < 64);
        lemma_mixed_below(block, within, rows * columns, 64);
        assert(index == block * 64 + within);
        lemma_unique(index, 64, block, within);
        lemma_unique(block, columns, row, column);
        lemma_unique(within, 8, v, u);
        lemma_unique(column, sets, mcu, set);
        assert(coefficient_place_of(sets, columns, across, index) == row * br + (v * planes + 8
            * set + u) * across + mcu);
    }
}


/// The block rows of a component that a slice of `len` values in natural order
/// fills, at most `rows`.
pub open spec fn filled_rows(rows: int, columns: int, len: int) -> int {
    if len / (columns * 64) < rows {
        len / (columns * 64)
    } else {
        rows
    }
}

/// A component's values in natural order laid out in the planes of `across` MCUs:
/// each place holds the value whose place it is, where there is one, and `blank`
/// elsewhere.
pub open spec fn values_in_planes<T>(
    sets: int,
    columns: int,
    across: int,
    rows: int,
    natural: Seq<T>,
    blank: T,
) -> Seq<T> {
    let filled = filled_rows(rows, columns, natural.len() as int) * columns * 64;
    Seq::new(
        (rows * block_row_of(sets, across)) as nat,
        |place: int|
            match value_at(sets, columns, across, place) {
                Some(index) => if index < filled {
                    natural[index]
                } else {
                    blank
                },
                None => blank,
            },
    )
}

/// Whether `place` of a component's planes holds no value of `natural`: the place of
/// a block that the component does not have, or of one beyond the values given.
pub open spec fn blank_place(
    sets: int,
    columns: int,
    across: int,
    rows: int,
    len: int,
    place: int,
) -> bool {
    match value_at(sets, columns, across, place) {
        Some(index) => index >= filled_rows(rows, columns, len) * columns * 64,
        None => true,
    }
}

/// A canvas in the natural layout in the planes: each place of a whole row holds its
/// column, and the values beyond the last whole row are `blank`.
pub open spec fn canvas_in_planes<T>(planes: int, across: int, natural: Seq<T>, blank: T) -> Seq<T> {
    let width = planes * across;
    let whole = (natural.len() as int / width) * width;
    Seq::new(
        natural.len(),
        |k: int|
            if k < whole {
                natural[(k / width) * width + column_at(planes, across, k % width)]
            } else {
                blank
            },
    )
}

/// A canvas in the planes written over `natural`: each column of a row that both
/// hold whole takes the value at its place, and the rest of `natural` is kept.
pub open spec fn canvas_in_natural<T>(planes: int, across: int, planar: Seq<T>, natural: Seq<T>) -> Seq<T> {
    let width = planes * across;
    let shorter = if planar.len() < natural.len() {
        planar.len() as int
    } else {
        natural.len() as int
    };
    let whole = (shorter / width) * width;
    Seq::new(
        natural.len(),
        |k: int|
            if k < whole {
                planar[(k / width) * width + column_place(planes, across, k % width)]
            } else {
                natural[k]
            },
    )
}

/// A component's values in the planes written over `natural` in natural order: each
/// value of a block row that both hold whole takes the value at its place, and the
/// rest of `natural` is kept.
pub open spec fn values_in_natural<T>(
    sets: int,
    columns: int,
    across: int,
    planar: Seq<T>,
    natural: Seq<T>,
) -> Seq<T> {
    let whole = filled_rows(planar.len() as int / block_row_of(sets, across), columns, natural.len() as int)
        * columns * 64;
    Seq::new(
        natural.len(),
        |index: int|
            if index < whole {
                planar[coefficient_place_of(sets, columns, across, index)]
            } else {
                natural[index]
            },
    )
}

// ---------------------------------------------------------------------------
// The layout.
// ---------------------------------------------------------------------------

/// The layout of one component in the planes.
#[derive(Debug)]
pub struct Part {
    /// The canvas's samples per sample of the component, down and across.
    pub ratio: (usize, usize),
    /// The component's columns in an MCU, `P / a`.
    pub planes: usize,
    /// Its blocks across an MCU, `planes / 8`.
    pub sets: usize,
    /// Its block rows in a band of MCUs, `R / (8 b)`.
    pub band_rows: usize,
    /// Its block rows.
    pub rows: usize,
    /// Its blocks across.
    pub columns: usize,
    /// For each place `t` of a block across an MCU, the MCUs across whose block there
    /// the component has: `m < valid[t]`.
    pub valid: Vec<usize>,
    /// The component's levels in the planes, 0 at the places of blocks that it does
    /// not have.
    pub levels: Vec<i16>,
}

impl Part {
    /// What the places of this component in the planes of `across` MCUs ask: its
    /// blocks in sets of 8 columns, each block of a row in one of the MCUs, and all its
    /// block rows within a `usize`.
    pub open spec fn fits(&self, across: int) -> bool {
        &&& self.planes == 8 * self.sets
        &&& tiles(self.sets as int, self.columns as int, across)
        &&& block_row_of(self.sets as int, across) <= usize::MAX
        &&& self.rows * block_row_of(self.sets as int, across) <= usize::MAX
    }

    /// The values of one block row of the component's coefficients in the planes.
    pub fn block_row(&self, across: usize) -> (values: usize)
        requires
            8 * self.planes * across <= usize::MAX,
        ensures
            values == 8 * self.planes * across,
    {
        proof {
            assert(self.planes * across <= 8 * self.planes * across) by (nonlinear_arith)
                requires
                    0 <= self.planes * across,
            ;
            assert(8 * self.planes * across == 8 * (self.planes * across)) by (nonlinear_arith);
        }
        BLOCK * (self.planes * across)
    }
}

/// The layout of a frame in the planes.
#[derive(Debug)]
pub struct Layout {
    /// Rows of the canvas.
    pub height: usize,
    /// Columns of the canvas, `P M`.
    pub width: usize,
    /// `P`: the columns of an MCU.
    pub planes: usize,
    /// `M`: the MCUs across.
    pub across: usize,
    /// `R`: the rows of an MCU, the height of a band.
    pub band: usize,
    /// Each component's layout.
    pub parts: Vec<Part>,
}

impl Layout {
    /// The rows of the canvas are `M` MCUs of `P` columns, and the canvas fits in
    /// memory.
    pub open spec fn wf(&self) -> bool {
        &&& 0 < self.planes
        &&& 0 < self.across
        &&& 0 < self.band
        &&& self.width == self.planes * self.across
        &&& self.height * self.width <= usize::MAX
    }

    /// The samples of one channel's canvas, `H W`.
    pub fn plane(&self) -> (samples: usize)
        requires
            self.height * self.width <= usize::MAX,
        ensures
            samples == self.height * self.width,
    {
        self.height * self.width
    }

    /// The bands of MCU rows, `H / R`.
    pub fn bands(&self) -> (bands: usize)
        requires
            0 < self.band,
        ensures
            bands == self.height / self.band,
    {
        self.height / self.band
    }

    /// Where column `column` of a row is within the row.
    pub fn place(&self, column: usize) -> (place: usize)
        requires
            self.wf(),
            column < self.width,
        ensures
            place == column_place(self.planes as int, self.across as int, column as int),
            place < self.width,
    {
        proof {
            lemma_column_place(self.planes as int, self.across as int, column as int);
        }
        (column % self.planes) * self.across + column / self.planes
    }

    /// Where coefficient `index` of component `part` in natural order (64 to a block,
    /// block rows from the top) is in the planes.
    pub fn coefficient_place(&self, part: &Part, index: usize) -> (place: usize)
        requires
            part.fits(self.across as int),
            index < part.rows * part.columns * 64,
        ensures
            place == coefficient_place_of(
                part.sets as int,
                part.columns as int,
                self.across as int,
                index as int,
            ),
            place < part.rows * block_row_of(part.sets as int, self.across as int),
    {
        place_of_value(part, self.across, part.rows, index)
    }
}


/// The value in natural order that `place` of a component's planes holds, computed.
fn value_index(part: &Part, across: usize, rows: usize, place: usize) -> (index: Option<usize>)
    requires
        part.planes == 8 * part.sets,
        tiles(part.sets as int, part.columns as int, across as int),
        rows * block_row_of(part.sets as int, across as int) <= usize::MAX,
        place < rows * block_row_of(part.sets as int, across as int),
    ensures
        match index {
            Some(index) => value_at(part.sets as int, part.columns as int, across as int, place as int)
                == Some(index as int) && index < rows * part.columns * 64,
            None => value_at(part.sets as int, part.columns as int, across as int, place as int)
                is None,
        },
{
    let ghost br = block_row_of(part.sets as int, across as int);
    proof {
        lemma_value_at(part.sets as int, part.columns as int, across as int, rows as int, place as int);
        assert(0 < br) by (nonlinear_arith)
            requires
                br == 8 * (8 * part.sets) * across,
                0 < part.sets,
                0 < across,
        ;
        assert(br <= rows * br) by (nonlinear_arith)
            requires
                place < rows * br,
                0 < br,
        ;
        assert(8 * part.planes * across == br);
    }
    let block_row = part.block_row(across);
    let row = place / block_row;
    let within_row = place % block_row;
    let mcu = within_row % across;
    let k = within_row / across;
    let v = k / part.planes;
    let set = (k % part.planes) / BLOCK;
    let u = (k % part.planes) % BLOCK;
    proof {
        lemma_split(place as int, br);
        lemma_split(within_row as int, across as int);
        assert(mcu * part.sets + set < across * part.sets) by (nonlinear_arith)
            requires
                mcu < across,
                set < part.sets,
        ;
        assert(across * part.sets <= br) by (nonlinear_arith)
            requires
                br == 8 * (8 * part.sets) * across,
                0 <= across * part.sets,
        ;
    }
    let column = mcu * part.sets + set;
    if column < part.columns {
        proof {
            let ghost i = (row * part.columns + column) * 64 + v * 8 + u;
            assert(value_at(part.sets as int, part.columns as int, across as int, place as int)
                == Some(i));
            assert(i < rows * part.columns * 64);
            assert(part.columns * 64 <= br) by (nonlinear_arith)
                requires
                    br == 8 * (8 * part.sets) * across,
                    part.columns <= part.sets * across,
            ;
            assert(rows * part.columns * 64 <= rows * br) by (nonlinear_arith)
                requires
                    part.columns * 64 <= br,
            ;
            assert(row * part.columns + column <= (row * part.columns + column) * 64) by (nonlinear_arith)
                requires
                    0 <= row * part.columns + column,
            ;
            assert(row * part.columns <= row * part.columns + column);
        }
        Some((row * part.columns + column) * BLOCK_SIZE + v * BLOCK + u)
    } else {
        None
    }
}

/// A component's values in natural order in the planes of `across` MCUs, block by
/// block: coefficient `(v, u)` of the block in column `c` of a block row is at
/// `(v P_c + 8 (c mod h) + u) M + c div h`; the places of blocks that it does not
/// have, and of those beyond the values given, are `T::default()`.
pub fn values_to_planes<T: Copy + Default>(part: &Part, across: usize, natural: &[T]) -> (result: Vec<T>)
    requires
        part.fits(across as int),
    ensures
        result@.len() == part.rows * block_row_of(part.sets as int, across as int),
        forall|place: int|
            0 <= place < result@.len() ==> {
                let index = value_at(part.sets as int, part.columns as int, across as int, place);
                if blank_place(
                    part.sets as int,
                    part.columns as int,
                    across as int,
                    part.rows as int,
                    natural@.len() as int,
                    place,
                ) {
                    call_ensures(T::default, (), #[trigger] result@[place])
                } else {
                    result@[place] == natural@[index->0]
                }
            },
{
    let blank = T::default();
    let block_row = part.block_row(across);
    let total = part.rows * block_row;
    proof {
        assert(part.columns * 64 <= block_row_of(part.sets as int, across as int)) by (nonlinear_arith)
            requires
                part.columns <= part.sets * across,
        ;
    }
    let per_row = part.columns * BLOCK_SIZE;
    let given_rows = natural.len() / per_row;
    let rows = if given_rows < part.rows {
        given_rows
    } else {
        part.rows
    };
    let ghost filled = filled_rows(part.rows as int, part.columns as int, natural@.len() as int);
    proof {
        assert(rows == filled);
        assert(rows * per_row <= natural@.len()) by (nonlinear_arith)
            requires
                rows <= given_rows,
                given_rows == natural@.len() as int / per_row as int,
                0 < per_row,
        ;
    }
    let limit = rows * per_row;
    proof {
        assert(limit == filled * part.columns * 64) by (nonlinear_arith)
            requires
                limit == rows * per_row,
                per_row == part.columns * 64,
                rows == filled,
        ;
    }
    let mut result: Vec<T> = Vec::new();
    let mut place: usize = 0;
    while place < total
        invariant
            part.fits(across as int),
            block_row == 8 * part.planes * across,
            total == part.rows * block_row,
            filled == filled_rows(part.rows as int, part.columns as int, natural@.len() as int),
            limit == filled * part.columns * 64,
            limit <= natural@.len(),
            call_ensures(T::default, (), blank),
            place <= total,
            result@.len() == place,
            forall|q: int|
                0 <= q < place ==> {
                    let index = value_at(part.sets as int, part.columns as int, across as int, q);
                    if blank_place(
                        part.sets as int,
                        part.columns as int,
                        across as int,
                        part.rows as int,
                        natural@.len() as int,
                        q,
                    ) {
                        #[trigger] result@[q] == blank
                    } else {
                        result@[q] == natural@[index->0]
                    }
                },
        decreases total - place,
    {
        let ghost at = value_at(part.sets as int, part.columns as int, across as int, place as int);
        let ghost blank_here = blank_place(
            part.sets as int,
            part.columns as int,
            across as int,
            part.rows as int,
            natural@.len() as int,
            place as int,
        );
        match value_index(part, across, part.rows, place) {
            Some(index) => {
                assert(at == Some(index as int));
                if index < limit {
                    assert(!blank_here);
                    result.push(natural[index]);
                } else {
                    assert(blank_here);
                    result.push(blank);
                }
            },
            None => {
                assert(blank_here);
                result.push(blank);
            },
        }
        assert(result@[place as int] == if blank_here {
            blank
        } else {
            natural@[at->0]
        });
        place += 1;
    }
    result
}


impl Layout {
    /// A component's coefficients, or levels, from natural order to the planes; the
    /// places of blocks that it does not have are `T::default()`.
    pub fn values_to_planes<T: Copy + Default>(&self, part: &Part, natural: &[T]) -> (result: Vec<T>)
        requires
            part.fits(self.across as int),
        ensures
            result@.len() == part.rows * block_row_of(part.sets as int, self.across as int),
            forall|place: int|
                0 <= place < result@.len() ==> {
                    let index = value_at(part.sets as int, part.columns as int, self.across as int, place);
                    if blank_place(
                        part.sets as int,
                        part.columns as int,
                        self.across as int,
                        part.rows as int,
                        natural@.len() as int,
                        place,
                    ) {
                        call_ensures(T::default, (), #[trigger] result@[place])
                    } else {
                        result@[place] == natural@[index->0]
                    }
                },
    {
        values_to_planes(part, self.across, natural)
    }

    /// A component's coefficients from the planes into natural order: each value of a
    /// block row that both hold whole.
    pub fn write_values_natural<T: Copy>(&self, part: &Part, planar: &[T], natural: &mut [T])
        requires
            part.planes == 8 * part.sets,
            tiles(part.sets as int, part.columns as int, self.across as int),
            block_row_of(part.sets as int, self.across as int) <= usize::MAX,
        ensures
            final(natural)@ == values_in_natural(
                part.sets as int,
                part.columns as int,
                self.across as int,
                planar@,
                old(natural)@,
            ),
    {
        let ghost sets = part.sets as int;
        let ghost columns = part.columns as int;
        let ghost across = self.across as int;
        let ghost br = block_row_of(sets, across);
        proof {
            assert(columns * 64 <= br) by (nonlinear_arith)
                requires
                    br == 8 * (8 * sets) * across,
                    columns <= sets * across,
            ;
            assert(0 < br) by (nonlinear_arith)
                requires
                    br == 8 * (8 * sets) * across,
                    0 < sets,
                    0 < across,
            ;
        }
        let block_row = part.block_row(self.across);
        let per_row = part.columns * BLOCK_SIZE;
        let planar_rows = planar.len() / block_row;
        let natural_rows = natural.len() / per_row;
        let rows = if natural_rows < planar_rows {
            natural_rows
        } else {
            planar_rows
        };
        proof {
            assert(rows * per_row <= natural@.len()) by (nonlinear_arith)
                requires
                    rows <= natural_rows,
                    natural_rows == natural@.len() as int / per_row as int,
                    0 < per_row,
            ;
            assert(rows * br <= planar@.len()) by (nonlinear_arith)
                requires
                    rows <= planar_rows,
                    planar_rows == planar@.len() as int / br,
                    0 < br,
            ;
            assert(rows * per_row == rows * columns * 64) by (nonlinear_arith)
                requires
                    per_row == columns * 64,
            ;
        }
        let limit = rows * per_row;
        let ghost whole = filled_rows(planar@.len() as int / br, columns, old(natural)@.len() as int)
            * columns * 64;
        assert(limit == whole);
        let mut index: usize = 0;
        while index < limit
            invariant
                part.planes == 8 * part.sets,
                tiles(sets, columns, across),
                sets == part.sets,
                columns == part.columns,
                across == self.across,
                br == block_row_of(sets, across),
                rows * br <= planar@.len(),
                rows * br <= usize::MAX,
                limit == rows * columns * 64,
                limit == whole,
                limit <= natural@.len(),
                natural@.len() == old(natural)@.len(),
                whole == filled_rows(planar@.len() as int / br, columns, old(natural)@.len() as int)
                    * columns * 64,
                index <= limit,
                forall|i: int|
                    0 <= i < natural@.len() ==> #[trigger] natural@[i] == if i < index {
                        planar@[coefficient_place_of(sets, columns, across, i)]
                    } else {
                        old(natural)@[i]
                    },
            decreases limit - index,
        {
            proof {
                lemma_coefficient_place(sets, columns, across, rows as int, index as int);
            }
            let place = place_of_value(part, self.across, rows, index);
            natural[index] = planar[place];
            index += 1;
        }
        assert(natural@ == values_in_natural(sets, columns, across, planar@, old(natural)@));
    }
}

/// Where value `index` of a component in natural order is in `rows` block rows of the
/// planes, computed.
fn place_of_value(part: &Part, across: usize, rows: usize, index: usize) -> (place: usize)
    requires
        part.planes == 8 * part.sets,
        tiles(part.sets as int, part.columns as int, across as int),
        rows * block_row_of(part.sets as int, across as int) <= usize::MAX,
        index < rows * part.columns * 64,
    ensures
        place == coefficient_place_of(part.sets as int, part.columns as int, across as int, index as int),
        place < rows * block_row_of(part.sets as int, across as int),
{
    let ghost br = block_row_of(part.sets as int, across as int);
    proof {
        lemma_coefficient_place(part.sets as int, part.columns as int, across as int, rows as int, index as int);
    }
    let block = index / BLOCK_SIZE;
    let within = index % BLOCK_SIZE;
    let (row, column) = (block / part.columns, block % part.columns);
    let (v, u) = (within / BLOCK, within % BLOCK);
    let (mcu, set) = (column / part.sets, column % part.sets);
    proof {
        lemma_split(index as int, 64);
        lemma_split(block as int, part.columns as int);
        lemma_split(within as int, 8);
        lemma_split(column as int, part.sets as int);
        assert(row < rows) by (nonlinear_arith)
            requires
                index == block * 64 + within,
                0 <= within,
                block == row * part.columns + column,
                0 <= column,
                index < rows * part.columns * 64,
                0 < part.columns,
        ;
        assert(mcu < across) by (nonlinear_arith)
            requires
                column == mcu * part.sets + set,
                0 <= set,
                column < part.columns,
                part.columns <= part.sets * across,
                0 < part.sets,
        ;
        assert(br <= rows * br) by (nonlinear_arith)
            requires
                1 <= rows,
                0 <= br,
        ;
        assert(row * br <= rows * br) by (nonlinear_arith)
            requires
                row < rows,
                0 <= br,
        ;
        assert(v * part.planes + BLOCK * set + u < 8 * part.planes) by (nonlinear_arith)
            requires
                v < 8,
                set < part.sets,
                u < 8,
                part.planes == 8 * part.sets,
        ;
        assert(v * part.planes <= v * part.planes + BLOCK * set + u);
        assert(v * part.planes + BLOCK * set + u <= (v * part.planes + BLOCK * set + u) * across)
            by (nonlinear_arith)
            requires
                1 <= across,
                0 <= v * part.planes + BLOCK * set + u,
        ;
        assert((v * part.planes + BLOCK * set + u) * across + mcu < br) by (nonlinear_arith)
            requires
                v * part.planes + BLOCK * set + u < 8 * part.planes,
                mcu < across,
                br == 8 * (8 * part.sets) * across,
                part.planes == 8 * part.sets,
        ;
    }
    let block_row = part.block_row(across);
    row * block_row + (v * part.planes + BLOCK * set + u) * across + mcu
}


/// The rows of a layout are not empty.
proof fn lemma_width(layout: &Layout)
    requires
        layout.wf(),
    ensures
        0 < layout.width,
{
    assert(0 < layout.planes * layout.across) by (nonlinear_arith)
        requires
            0 < layout.planes,
            0 < layout.across,
    ;
}

impl Layout {
    /// A canvas of every channel, `C x H x W`, from the natural layout (row by row,
    /// each from the left) to the planes; what lies beyond the last whole row is
    /// `T::default()`.
    pub fn to_planes<T: Copy + Default>(&self, natural: &[T]) -> (result: Vec<T>)
        requires
            self.wf(),
        ensures
            result@.len() == natural@.len(),
            forall|k: int|
                0 <= k < natural@.len() ==> if k < (natural@.len() as int / self.width as int)
                    * self.width {
                    #[trigger] result@[k] == natural@[(k / self.width as int) * self.width
                        + column_at(self.planes as int, self.across as int, k % self.width as int)]
                } else {
                    call_ensures(T::default, (), result@[k])
                },
    {
        let blank = T::default();
        let width = self.width;
        let len = natural.len();
        proof {
            lemma_width(self);
            lemma_split(len as int, width as int);
        }
        let whole = (len / width) * width;
        let mut result: Vec<T> = Vec::new();
        let mut k: usize = 0;
        while k < len
            invariant
                self.wf(),
                width == self.width,
                len == natural@.len(),
                whole == (len as int / width as int) * width,
                whole <= len,
                call_ensures(T::default, (), blank),
                k <= len,
                result@.len() == k,
                forall|j: int|
                    0 <= j < k ==> if j < whole {
                        #[trigger] result@[j] == natural@[(j / width as int) * width + column_at(
                            self.planes as int,
                            self.across as int,
                            j % width as int,
                        )]
                    } else {
                        result@[j] == blank
                    },
            decreases len - k,
        {
            if k < whole {
                let row = k / width;
                let within = k % width;
                proof {
                    lemma_split(k as int, width as int);
                    lemma_column_at(self.planes as int, self.across as int, within as int);
                    assert(row < len as int / width as int) by (nonlinear_arith)
                        requires
                            k == row * width + within,
                            0 <= within,
                            k < whole,
                            whole == (len as int / width as int) * width,
                            0 < width,
                    ;
                    assert(row * width + width <= whole) by (nonlinear_arith)
                        requires
                            row < len as int / width as int,
                            whole == (len as int / width as int) * width,
                            0 < width,
                    ;
                }
                let column = (within % self.across) * self.planes + within / self.across;
                result.push(natural[row * width + column]);
            } else {
                result.push(blank);
            }
            k += 1;
        }
        result
    }

    /// A canvas of every channel from the planes into one in the natural layout: each
    /// column of a row that both hold whole.
    pub fn write_natural<T: Copy>(&self, planar: &[T], natural: &mut [T])
        requires
            self.wf(),
        ensures
            final(natural)@ == canvas_in_natural(
                self.planes as int,
                self.across as int,
                planar@,
                old(natural)@,
            ),
    {
        let width = self.width;
        let shorter = if planar.len() < natural.len() {
            planar.len()
        } else {
            natural.len()
        };
        proof {
            lemma_width(self);
            lemma_split(shorter as int, width as int);
        }
        let whole = (shorter / width) * width;
        let mut k: usize = 0;
        while k < whole
            invariant
                self.wf(),
                width == self.width,
                shorter <= planar@.len(),
                shorter <= natural@.len(),
                shorter == if planar@.len() < old(natural)@.len() {
                    planar@.len() as int
                } else {
                    old(natural)@.len() as int
                },
                natural@.len() == old(natural)@.len(),
                whole == (shorter as int / width as int) * width,
                whole <= shorter,
                k <= whole,
                forall|j: int|
                    0 <= j < natural@.len() ==> #[trigger] natural@[j] == if j < k {
                        planar@[(j / width as int) * width + column_place(
                            self.planes as int,
                            self.across as int,
                            j % width as int,
                        )]
                    } else {
                        old(natural)@[j]
                    },
            decreases whole - k,
        {
            let row = k / width;
            let within = k % width;
            proof {
                lemma_split(k as int, width as int);
                lemma_column_place(self.planes as int, self.across as int, within as int);
                assert(row * width + width <= whole) by (nonlinear_arith)
                    requires
                        k == row * width + within,
                        0 <= within < width,
                        k < whole,
                        whole == (shorter as int / width as int) * width,
                        0 < width,
                ;
            }
            let place = (within % self.planes) * self.across + within / self.planes;
            natural[k] = planar[row * width + place];
            k += 1;
        }
        assert(natural@ == canvas_in_natural(self.planes as int, self.across as int, planar@, old(natural)@));
    }

    /// A canvas of every channel from the planes to the natural layout; what lies
    /// beyond the last whole row is `T::default()`.
    pub fn to_natural<T: Copy + Default>(&self, planar: &[T]) -> (result: Vec<T>)
        requires
            self.wf(),
        ensures
            result@.len() == planar@.len(),
            forall|k: int|
                0 <= k < planar@.len() ==> if k < (planar@.len() as int / self.width as int)
                    * self.width {
                    #[trigger] result@[k] == planar@[(k / self.width as int) * self.width
                        + column_place(self.planes as int, self.across as int, k % self.width as int)]
                } else {
                    call_ensures(T::default, (), result@[k])
                },
    {
        let blank = T::default();
        let len = planar.len();
        let mut result: Vec<T> = Vec::new();
        let mut k: usize = 0;
        while k < len
            invariant
                len == planar@.len(),
                call_ensures(T::default, (), blank),
                k <= len,
                result@.len() == k,
                forall|j: int| 0 <= j < k ==> #[trigger] result@[j] == blank,
            decreases len - k,
        {
            result.push(blank);
            k += 1;
        }
        let ghost before = result@;
        self.write_natural(planar, result.as_mut_slice());
        result
    }
}


// ---------------------------------------------------------------------------
// The layout of a frame.
// ---------------------------------------------------------------------------

/// What the layout of a frame reads of one of its components: the ratio of its cells
/// to the canvas, its blocks, and its quantized levels, 64 to a block in natural
/// order.
#[derive(Debug)]
pub struct ChannelBlocks {
    /// The canvas's samples per sample of the component, `(down, across)`.
    pub ratio: (usize, usize),
    /// Block rows.
    pub rows: usize,
    /// Blocks across.
    pub columns: usize,
    /// The quantized levels.
    pub levels: Vec<i16>,
}

/// A component on a canvas of `height x width`: cells of at least one sample, whose
/// blocks' rows count in a `usize`, and blocks that the canvas holds.
pub open spec fn channel_fits(channel: ChannelBlocks, height: int, width: int) -> bool {
    &&& 1 <= channel.ratio.0
    &&& 1 <= channel.ratio.1
    &&& 1 <= channel.columns
    &&& 8 * channel.ratio.0 <= usize::MAX
    &&& channel.rows * 8 * channel.ratio.0 <= height
    &&& channel.columns * 8 * channel.ratio.1 <= width
}

/// The components of a frame, one at least, on a canvas of `height x width`, which fits
/// in memory with a block row of its values.
pub open spec fn frame_fits(channels: Seq<ChannelBlocks>, height: int, width: int) -> bool {
    &&& 1 <= channels.len()
    &&& forall|j: int| 0 <= j < channels.len() ==> channel_fits(#[trigger] channels[j], height, width)
    &&& 0 <= height
    &&& 0 <= width
    &&& height * width <= usize::MAX
    &&& 8 * width <= usize::MAX
}

/// The largest ratio of cells across, 1 for no component.
pub open spec fn most_across(channels: Seq<ChannelBlocks>) -> int
    decreases channels.len(),
{
    if channels.len() == 0 {
        1
    } else {
        let rest = most_across(channels.drop_last());
        if rest < channels.last().ratio.1 {
            channels.last().ratio.1 as int
        } else {
            rest
        }
    }
}

/// The largest ratio of cells down, 1 for no component.
pub open spec fn most_down(channels: Seq<ChannelBlocks>) -> int
    decreases channels.len(),
{
    if channels.len() == 0 {
        1
    } else {
        let rest = most_down(channels.drop_last());
        if rest < channels.last().ratio.0 {
            channels.last().ratio.0 as int
        } else {
            rest
        }
    }
}

/// Whether MCUs of `band x planes` tile a canvas of `height x width`.
pub open spec fn mcus_tile(band: int, planes: int, height: int, width: int) -> bool {
    width % planes == 0 && height % band == 0
}

/// Whether a component's blocks tile MCUs of `band x planes`.
pub open spec fn blocks_tile(channel: ChannelBlocks, band: int, planes: int) -> bool {
    planes % (8 * channel.ratio.1) == 0 && band % (8 * channel.ratio.0) == 0
}

/// The MCUs across whose block at place `set` a component of `columns` blocks across,
/// in `sets` places of an MCU, has: `ceil((columns - set) / sets)`, at most `across`.
pub open spec fn valid_count(columns: int, sets: int, across: int, set: int) -> int {
    if columns > set {
        let count = if (columns - set) % sets == 0 {
            (columns - set) / sets
        } else {
            (columns - set) / sets + 1
        };
        if count < across {
            count
        } else {
            across
        }
    } else {
        0
    }
}

/// The count of MCUs that a component's block at place `set` is counted in is the
/// count of those that hold one of its block columns: of the first `across` MCUs,
/// MCU `m` is counted exactly where the component has block column
/// `set + m sets`, and no more than `across` are counted.
pub proof fn lemma_valid_count(columns: int, sets: int, across: int, set: int, m: int)
    requires
        0 <= set < sets,
        0 <= columns,
        0 <= across,
        0 <= m < across,
    ensures
        0 <= valid_count(columns, sets, across, set) <= across,
        m < valid_count(columns, sets, across, set) <==> set + m * sets < columns,
{
    if columns > set {
        let rest = columns - set;
        lemma_split(rest, sets);
        let (q, r) = (rest / sets, rest % sets);
        let count = if r == 0 { q } else { q + 1 };
        assert(m < count <==> m * sets < rest) by (nonlinear_arith)
            requires
                rest == q * sets + r,
                0 <= r < sets,
                0 <= q,
                0 <= m,
                count == if r == 0 { q } else { q + 1 },
        {
            if m < count {
                if r == 0 {
                    assert(m <= q - 1);
                    assert(m * sets <= (q - 1) * sets);
                } else {
                    assert(m <= q);
                    assert(m * sets <= q * sets);
                }
            } else {
                if r == 0 {
                    assert(m >= q);
                    assert(m * sets >= q * sets);
                } else {
                    assert(m >= q + 1);
                    assert(m * sets >= (q + 1) * sets);
                }
            }
        }
    } else {
        assert(m * sets >= 0) by (nonlinear_arith)
            requires
                0 <= m,
                0 < sets,
        ;
    }
}

/// In a component's layout in the planes, the count `valid[t]` of each place `t`
/// of an MCU is the count of MCUs that hold a block column of the component at that
/// place: MCU `m` of a row holds the component's block column `t + m sets` where
/// `m < valid[t]`, and none where not.
pub proof fn lemma_part_valid(part: Part, channel: ChannelBlocks, band: int, planes: int, across: int, t: int, m: int)
    requires
        is_part_of(part, channel, band, planes, across),
        0 <= t < part.sets,
        0 <= m < across,
    ensures
        part.valid@[t] <= across,
        m < part.valid@[t] <==> t + m * part.sets < channel.columns,
{
    assert(part.valid@[t] == valid_count(part.columns as int, part.sets as int, across, t));
    lemma_valid_count(part.columns as int, part.sets as int, across, t, m);
}

/// The layout of a component in MCUs of `band x planes`, `across` of them in a row.
pub open spec fn is_part_of(
    part: Part,
    channel: ChannelBlocks,
    band: int,
    planes: int,
    across: int,
) -> bool {
    &&& part.ratio == channel.ratio
    &&& part.planes == planes / channel.ratio.1 as int
    &&& part.sets == part.planes / 8
    &&& part.band_rows == band / (8 * channel.ratio.0)
    &&& part.rows == channel.rows
    &&& part.columns == channel.columns
    &&& part.valid@.len() == part.sets
    &&& forall|t: int|
        0 <= t < part.sets ==> #[trigger] part.valid@[t] == valid_count(
            part.columns as int,
            part.sets as int,
            across,
            t,
        )
    &&& part.levels@ == values_in_planes(
        part.sets as int,
        part.columns as int,
        across,
        part.rows as int,
        channel.levels@,
        0i16,
    )
    &&& part.fits(across)
}

/// Why MCUs do not tile the canvas.
pub open spec fn mcu_refusal(band: int, planes: int, height: int, width: int) -> Seq<char> {
    "MCUs of "@ + decimal(band as nat) + " x "@ + decimal(planes as nat)
        + " do not tile a canvas of "@ + decimal(height as nat) + " x "@ + decimal(width as nat)
}

/// Why a component's blocks do not tile the MCUs.
pub open spec fn block_refusal(channel: ChannelBlocks, band: int, planes: int) -> Seq<char> {
    "blocks of "@ + decimal((8 * channel.ratio.0) as nat) + " x "@ + decimal(
        (8 * channel.ratio.1) as nat,
    ) + " do not tile MCUs of "@ + decimal(band as nat) + " x "@ + decimal(planes as nat)
}


/// Why MCUs of `band x planes` do not tile a canvas of `height x width`, as a message.
fn mcu_message(band: usize, planes: usize, height: usize, width: usize) -> (message: String)
    ensures
        message@ == mcu_refusal(band as int, planes as int, height as int, width as int),
{
    let mut message = text("MCUs of ");
    add_number(&mut message, band as u64);
    add_text(&mut message, " x ");
    add_number(&mut message, planes as u64);
    add_text(&mut message, " do not tile a canvas of ");
    add_number(&mut message, height as u64);
    add_text(&mut message, " x ");
    add_number(&mut message, width as u64);
    message
}

/// Why a component's blocks of `down x across` do not tile MCUs of `band x planes`,
/// as a message.
fn block_message(down: usize, across: usize, band: usize, planes: usize) -> (message: String)
    requires
        8 * down <= usize::MAX,
        8 * across <= usize::MAX,
    ensures
        message@ == "blocks of "@ + decimal((8 * down) as nat) + " x "@ + decimal((8 * across) as nat)
            + " do not tile MCUs of "@ + decimal(band as nat) + " x "@ + decimal(planes as nat),
{
    let mut message = text("blocks of ");
    add_number(&mut message, (BLOCK * down) as u64);
    add_text(&mut message, " x ");
    add_number(&mut message, (BLOCK * across) as u64);
    add_text(&mut message, " do not tile MCUs of ");
    add_number(&mut message, band as u64);
    add_text(&mut message, " x ");
    add_number(&mut message, planes as u64);
    message
}

/// The MCUs across whose block at place `set` a component has, computed.
fn valid_of(columns: usize, sets: usize, across: usize, set: usize) -> (count: usize)
    requires
        0 < sets,
    ensures
        count == valid_count(columns as int, sets as int, across as int, set as int),
{
    if columns > set {
        let rest = columns - set;
        proof {
            lemma_split(rest as int, sets as int);
            assert(rest / sets <= (rest / sets) * sets) by (nonlinear_arith)
                requires
                    1 <= sets,
                    0 <= rest / sets,
            ;
        }
        let count = if rest % sets == 0 {
            rest / sets
        } else {
            rest / sets + 1
        };
        if count < across {
            count
        } else {
            across
        }
    } else {
        0
    }
}


/// The layout of a component in MCUs of `band x planes`, `across` of them in a row of
/// `width` columns, on a canvas of `height x width`.
fn part_of(channel: &ChannelBlocks, band: usize, planes: usize, across: usize, height: usize, width: usize) -> (part: Part)
    requires
        channel_fits(*channel, height as int, width as int),
        0 < planes,
        0 < band,
        0 < across,
        width == planes * across,
        height * width <= usize::MAX,
        8 * width <= usize::MAX,
        blocks_tile(*channel, band as int, planes as int),
    ensures
        is_part_of(part, *channel, band as int, planes as int, across as int),
{
    let (down, across_ratio) = channel.ratio;
    let ghost g: int = planes as int / (8 * across_ratio as int);
    proof {
        lemma_split(planes as int, 8 * across_ratio as int);
        assert(planes == (8 * across_ratio) * g);
        assert(planes == across_ratio * (8 * g)) by (nonlinear_arith)
            requires
                planes == (8 * across_ratio) * g,
        ;
        lemma_unique(planes as int, across_ratio as int, 8 * g, 0);
        assert(0 < g) by (nonlinear_arith)
            requires
                planes == (8 * across_ratio) * g,
                0 < planes,
                0 < across_ratio,
        ;
        lemma_unique(8 * g, 8, g, 0);
    }
    let own_planes = planes / across_ratio;
    let sets = own_planes / BLOCK;
    proof {
        assert(own_planes == 8 * g);
        assert(sets == g);
        assert(width == 8 * across_ratio * (g * across)) by (nonlinear_arith)
            requires
                width == planes * across,
                planes == (8 * across_ratio) * g,
        ;
        assert(channel.columns <= g * across) by (nonlinear_arith)
            requires
                channel.columns * 8 * across_ratio <= width,
                width == 8 * across_ratio * (g * across),
                0 < across_ratio,
        ;
        assert(8 * g * across <= width) by (nonlinear_arith)
            requires
                width == 8 * across_ratio * (g * across),
                1 <= across_ratio,
                0 <= g * across,
        ;
        assert(block_row_of(g, across as int) == 8 * (8 * g * across)) by (nonlinear_arith);
        assert(channel.rows * 8 <= height) by (nonlinear_arith)
            requires
                channel.rows * 8 * down <= height,
                1 <= down,
        ;
        assert(channel.rows * block_row_of(g, across as int) <= height * width) by (nonlinear_arith)
            requires
                block_row_of(g, across as int) == 8 * (8 * g * across),
                channel.rows * 8 <= height,
                8 * g * across <= width,
                0 <= channel.rows,
                0 <= g * across,
        ;
        lemma_split(band as int, 8 * down as int);
        assert(8 * down <= band) by (nonlinear_arith)
            requires
                band == (band as int / (8 * down as int)) * (8 * down),
                0 < band,
                0 <= band as int / (8 * down as int),
                0 < down,
        ;
    }
    let mut valid: Vec<usize> = Vec::new();
    let mut t: usize = 0;
    while t < sets
        invariant
            0 < sets,
            t <= sets,
            valid@.len() == t,
            forall|i: int|
                0 <= i < t ==> #[trigger] valid@[i] == valid_count(
                    channel.columns as int,
                    sets as int,
                    across as int,
                    i,
                ),
        decreases sets - t,
    {
        valid.push(valid_of(channel.columns, sets, across, t));
        t += 1;
    }
    let mut part = Part {
        ratio: channel.ratio,
        planes: own_planes,
        sets,
        band_rows: band / (BLOCK * down),
        rows: channel.rows,
        columns: channel.columns,
        valid,
        levels: Vec::new(),
    };
    let levels = values_to_planes(&part, across, channel.levels.as_slice());
    proof {
        let ghost expected = values_in_planes(
            sets as int,
            channel.columns as int,
            across as int,
            channel.rows as int,
            channel.levels@,
            0i16,
        );
        assert forall|place: int| 0 <= place < levels@.len() implies levels@[place] == expected[place] by {
            if blank_place(
                sets as int,
                channel.columns as int,
                across as int,
                channel.rows as int,
                channel.levels@.len() as int,
                place,
            ) {
                assert(call_ensures(i16::default, (), levels@[place]));
            }
        }
        assert(levels@ == expected);
    }
    part.levels = levels;
    part
}


impl Layout {
    /// The layout of a frame of these components on a canvas of `height x width`.
    ///
    /// # Errors
    ///
    /// [`Error::Unsupported`] where the MCUs do not tile the canvas, or a component's
    /// blocks do not tile the MCUs.
    pub fn new(channels: &[ChannelBlocks], height: usize, width: usize) -> (result: Result<Layout, Error>)
        requires
            frame_fits(channels@, height as int, width as int),
        ensures
            ({
                let planes = 8 * most_across(channels@);
                let band = 8 * most_down(channels@);
                match result {
                    Ok(layout) => {
                        &&& mcus_tile(band, planes, height as int, width as int)
                        &&& forall|j: int|
                            0 <= j < channels@.len() ==> blocks_tile(
                                #[trigger] channels@[j],
                                band,
                                planes,
                            )
                        &&& layout.wf()
                        &&& layout.height == height
                        &&& layout.width == width
                        &&& layout.planes == planes
                        &&& layout.band == band
                        &&& layout.across == width as int / planes
                        &&& layout.parts@.len() == channels@.len()
                        &&& forall|j: int|
                            0 <= j < channels@.len() ==> is_part_of(
                                #[trigger] layout.parts@[j],
                                channels@[j],
                                band,
                                planes,
                                layout.across as int,
                            )
                    },
                    Err(error) => if !mcus_tile(band, planes, height as int, width as int) {
                        error matches Error::Unsupported(message) && message@ == mcu_refusal(
                            band,
                            planes,
                            height as int,
                            width as int,
                        )
                    } else {
                        exists|j: int|
                            {
                                &&& 0 <= j < channels@.len()
                                &&& !blocks_tile(#[trigger] channels@[j], band, planes)
                                &&& forall|k: int|
                                    0 <= k < j ==> blocks_tile(#[trigger] channels@[k], band, planes)
                                &&& error matches Error::Unsupported(message)
                                &&& message@ == block_refusal(channels@[j], band, planes)
                            }
                    },
                }
            }),
    {
        proof {
            assert(channel_fits(channels@[0], height as int, width as int));
            assert(8 <= width) by (nonlinear_arith)
                requires
                    channels@[0].columns * 8 * channels@[0].ratio.1 <= width,
                    1 <= channels@[0].columns,
                    1 <= channels@[0].ratio.1,
            ;
            assert(channels@.take(0).len() == 0);
        }
        let mut most_a: usize = 1;
        let mut most_d: usize = 1;
        let mut j: usize = 0;
        while j < channels.len()
            invariant
                frame_fits(channels@, height as int, width as int),
                j <= channels@.len(),
                8 <= width,
                1 <= most_a,
                1 <= most_d,
                8 * most_a <= width,
                8 * most_d <= usize::MAX,
                most_a == most_across(channels@.take(j as int)),
                most_d == most_down(channels@.take(j as int)),
            decreases channels@.len() - j,
        {
            let channel = &channels[j];
            proof {
                assert(channel_fits(channels@[j as int], height as int, width as int));
                assert(8 * channel.ratio.1 <= width) by (nonlinear_arith)
                    requires
                        channel.columns * 8 * channel.ratio.1 <= width,
                        1 <= channel.columns,
                ;
                assert(channels@.take(j + 1).drop_last() == channels@.take(j as int));
                assert(channels@.take(j + 1).last() == channels@[j as int]);
            }
            if most_a < channel.ratio.1 {
                most_a = channel.ratio.1;
            }
            if most_d < channel.ratio.0 {
                most_d = channel.ratio.0;
            }
            j += 1;
        }
        proof {
            assert(channels@.take(channels@.len() as int) == channels@);
        }
        let planes = BLOCK * most_a;
        let band = BLOCK * most_d;
        if width % planes != 0 || height % band != 0 {
            return Err(Error::Unsupported(mcu_message(band, planes, height, width)));
        }
        let across = width / planes;
        proof {
            lemma_split(width as int, planes as int);
            assert(width == planes * across) by (nonlinear_arith)
                requires
                    width == across * planes + 0,
            ;
            assert(0 < across) by (nonlinear_arith)
                requires
                    width == planes * across,
                    8 <= width,
                    0 <= across,
            ;
        }
        let mut parts: Vec<Part> = Vec::new();
        let mut j: usize = 0;
        while j < channels.len()
            invariant
                frame_fits(channels@, height as int, width as int),
                j <= channels@.len(),
                planes == 8 * most_across(channels@),
                band == 8 * most_down(channels@),
                0 < planes,
                0 < band,
                0 < across,
                width == planes * across,
                mcus_tile(band as int, planes as int, height as int, width as int),
                across == width as int / planes as int,
                parts@.len() == j,
                forall|k: int| 0 <= k < j ==> blocks_tile(#[trigger] channels@[k], band as int, planes as int),
                forall|k: int|
                    0 <= k < j ==> is_part_of(
                        #[trigger] parts@[k],
                        channels@[k],
                        band as int,
                        planes as int,
                        across as int,
                    ),
            decreases channels@.len() - j,
        {
            let channel = &channels[j];
            let (down, across_ratio) = channel.ratio;
            proof {
                assert(channel_fits(channels@[j as int], height as int, width as int));
                assert(8 * across_ratio <= width) by (nonlinear_arith)
                    requires
                        channel.columns * 8 * across_ratio <= width,
                        1 <= channel.columns,
                ;
            }
            if planes % (BLOCK * across_ratio) != 0 || band % (BLOCK * down) != 0 {
                let message = block_message(down, across_ratio, band, planes);
                proof {
                    assert(message@ == block_refusal(channels@[j as int], band as int, planes as int));
                }
                return Err(Error::Unsupported(message));
            }
            parts.push(part_of(channel, band, planes, across, height, width));
            j += 1;
        }
        Ok(Layout { height, width, planes, across, band, parts })
    }
}


// ---------------------------------------------------------------------------
// What the layout keeps.
// ---------------------------------------------------------------------------

/// A canvas of whole rows laid out in the planes and back is the canvas: what
/// [`Layout::to_planes`] gives, [`Layout::to_natural`] takes back.
pub proof fn lemma_canvas_round_trip<T>(layout: &Layout, natural: Seq<T>, planar: Seq<T>, back: Seq<T>)
    requires
        layout.wf(),
        natural.len() as int % (layout.width as int) == 0,
        planar.len() == natural.len(),
        forall|k: int|
            0 <= k < planar.len() ==> #[trigger] planar[k] == natural[(k / layout.width as int)
                * layout.width + column_at(layout.planes as int, layout.across as int, k % layout.width as int)],
        back.len() == planar.len(),
        forall|k: int|
            0 <= k < back.len() ==> #[trigger] back[k] == planar[(k / layout.width as int)
                * layout.width + column_place(layout.planes as int, layout.across as int, k % layout.width as int)],
    ensures
        back == natural,
{
    lemma_width(layout);
    let width = layout.width as int;
    assert forall|k: int| 0 <= k < back.len() implies back[k] == natural[k] by {
        lemma_split(k, width);
        let (row, column) = (k / width, k % width);
        lemma_column_place(layout.planes as int, layout.across as int, column);
        let place = column_place(layout.planes as int, layout.across as int, column);
        let at = row * width + place;
        lemma_split(natural.len() as int, width);
        assert(row < natural.len() as int / width) by (nonlinear_arith)
            requires
                k == row * width + column,
                0 <= column,
                k < natural.len(),
                natural.len() == (natural.len() as int / width) * width,
                0 < width,
        ;
        assert(0 <= at < natural.len()) by (nonlinear_arith)
            requires
                at == row * width + place,
                0 <= row < natural.len() as int / width,
                0 <= place < width,
                natural.len() == (natural.len() as int / width) * width,
        ;
        lemma_unique(at, width, row, place);
        assert(planar[at] == natural[row * width + column]);
    }
    assert(back == natural);
}

/// A component's values of all its blocks laid out in the planes and written back in
/// natural order are the values: what [`Layout::values_to_planes`] gives,
/// [`Layout::write_values_natural`] takes back, whatever it writes over.
pub proof fn lemma_values_round_trip<T>(
    part: &Part,
    across: int,
    natural: Seq<T>,
    planar: Seq<T>,
    target: Seq<T>,
)
    requires
        part.fits(across),
        natural.len() == part.rows * part.columns * 64,
        planar.len() == part.rows * block_row_of(part.sets as int, across),
        forall|place: int|
            0 <= place < planar.len() && !blank_place(
                part.sets as int,
                part.columns as int,
                across,
                part.rows as int,
                natural.len() as int,
                place,
            ) ==> #[trigger] planar[place] == natural[value_at(
                part.sets as int,
                part.columns as int,
                across,
                place,
            )->0],
        target.len() == natural.len(),
    ensures
        values_in_natural(part.sets as int, part.columns as int, across, planar, target) == natural,
{
    let (sets, columns, rows) = (part.sets as int, part.columns as int, part.rows as int);
    let br = block_row_of(sets, across);
    assert(0 < br) by (nonlinear_arith)
        requires
            br == 8 * (8 * sets) * across,
            0 < sets,
            0 < across,
    ;
    assert(0 < columns * 64);
    lemma_unique(planar.len() as int, br, rows, 0);
    assert(rows * columns * 64 == rows * (columns * 64)) by (nonlinear_arith);
    lemma_unique(natural.len() as int, columns * 64, rows, 0);
    assert(filled_rows(rows, columns, natural.len() as int) == rows);
    assert(filled_rows(planar.len() as int / br, columns, target.len() as int) == rows);
    let back = values_in_natural(sets, columns, across, planar, target);
    assert forall|index: int| 0 <= index < natural.len() implies back[index] == natural[index] by {
        lemma_coefficient_place(sets, columns, across, rows, index);
    }
    assert(back == natural);
}

} // verus!
