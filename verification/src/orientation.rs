//! The EXIF orientation of a picture: how the picture as the file stores it is
//! turned and mirrored to show it upright (EXIF's tag `Orientation`, 274).
//!
//! Value `o` says where the stored picture's first row and first column are to be
//! seen: 1 top and left (as stored), 2 top and right, 3 bottom and right, 4 bottom
//! and left, 5 left and top, 6 right and top, 7 right and bottom, 8 left and
//! bottom. From 5 on, the rows become columns, and a picture of `h x w` is shown as
//! `w x h`. Pixel `(r, c)` of what is shown, of the stored picture `S` of `h` rows
//! and `w` columns, is:
//!
//! | `o` | shown | `o` | shown |
//! |---|---|---|---|
//! | 1 | `S[r][c]` | 5 | `S[c][r]` |
//! | 2 | `S[r][w-1-c]` | 6 | `S[h-1-c][r]` |
//! | 3 | `S[h-1-r][w-1-c]` | 7 | `S[h-1-c][w-1-r]` |
//! | 4 | `S[h-1-r][c]` | 8 | `S[c][w-1-r]` |
//!
//! Turning the picture moves its pixels and changes none: every sample of the
//! result is one of the picture's, bit for bit.
use vstd::prelude::*;

use vstd::arithmetic::div_mod::{lemma_fundamental_div_mod, lemma_mod_pos_bound, lemma_multiply_divide_lt};

use crate::error::{add_number, add_signed, add_text, decimal, signed_decimal, text, Error};

verus! {

/// A picture turned upright: its samples, interleaved as the picture's are, and its
/// rows and columns.
#[derive(Debug, Clone, PartialEq)]
pub struct Oriented<T> {
    /// `height x width x channels` samples.
    pub samples: Vec<T>,
    /// Rows.
    pub height: usize,
    /// Columns.
    pub width: usize,
}

/// Whether an orientation turns the rows into columns.
pub open spec fn turns_rows(orientation: int) -> bool {
    5 <= orientation <= 8
}

/// Whether a value is an orientation: 1 to 8, or 0 for none.
pub open spec fn is_orientation(orientation: int) -> bool {
    0 <= orientation <= 8
}

/// Where sample `k` of pixel `(r, c)` lies among the interleaved samples of a
/// picture of `columns` columns and `channels` samples to a pixel.
pub open spec fn flat(r: int, c: int, k: int, columns: int, channels: int) -> int {
    (r * columns + c) * channels + k
}

/// The stored pixel, (row, column), that pixel `(r, c)` of what is shown is: the
/// table of the module.
pub open spec fn shown(orientation: int, height: int, width: int, r: int, c: int) -> (int, int) {
    if orientation == 2 {
        (r, width - 1 - c)
    } else if orientation == 3 {
        (height - 1 - r, width - 1 - c)
    } else if orientation == 4 {
        (height - 1 - r, c)
    } else if orientation == 5 {
        (c, r)
    } else if orientation == 6 {
        (height - 1 - c, r)
    } else if orientation == 7 {
        (height - 1 - c, width - 1 - r)
    } else if orientation == 8 {
        (c, width - 1 - r)
    } else {
        (r, c)
    }
}

/// The rows of what is shown of a picture of `height x width`.
pub open spec fn shown_rows(orientation: int, height: int, width: int) -> int {
    if turns_rows(orientation) { width } else { height }
}

/// The columns of what is shown of a picture of `height x width`.
pub open spec fn shown_columns(orientation: int, height: int, width: int) -> int {
    if turns_rows(orientation) { height } else { width }
}

/// Sample `k` of pixel `(r, c)` of `turned` is sample `k` of the stored pixel that
/// the table gives.
pub open spec fn pixel_shown<T>(
    turned: Seq<T>,
    samples: Seq<T>,
    orientation: int,
    height: int,
    width: int,
    channels: int,
    r: int,
    c: int,
) -> bool {
    let (sr, sc) = shown(orientation, height, width, r, c);
    forall|k: int|
        0 <= k < channels ==> turned[flat(
            r,
            c,
            k,
            shown_columns(orientation, height, width),
            channels,
        )] == samples[#[trigger] flat(sr, sc, k, width, channels)]
}

/// `turned` is the picture `samples` of `height x width` pixels of `channels`
/// samples, shown as the orientation says.
pub open spec fn turned_as_shown<T>(
    turned: Seq<T>,
    samples: Seq<T>,
    orientation: int,
    height: int,
    width: int,
    channels: int,
) -> bool {
    let rows = shown_rows(orientation, height, width);
    let columns = shown_columns(orientation, height, width);
    &&& turned.len() == rows * columns * channels
    &&& forall|r: int, c: int|
        0 <= r < rows && 0 <= c < columns ==> #[trigger] pixel_shown(
            turned,
            samples,
            orientation,
            height,
            width,
            channels,
            r,
            c,
        )
}

/// A sample of a pixel within a picture lies within its samples, and no other
/// sample of another pixel lies there.
proof fn lemma_flat(r: int, c: int, k: int, rows: int, columns: int, channels: int)
    requires
        0 <= r < rows,
        0 <= c < columns,
        0 <= k < channels,
    ensures
        0 <= r * columns + c < rows * columns,
        0 <= (r * columns + c) * channels,
        0 <= r * columns <= r * columns + c,
        rows * columns <= rows * columns * channels,
        flat(r, c, k, columns, channels) + channels - k <= rows * columns * channels,
        0 <= flat(r, c, k, columns, channels) < rows * columns * channels,
        flat(r, c, k, columns, channels) == flat(r, c, 0, columns, channels) + k,
{
    assert(0 <= r * columns + c < rows * columns) by (nonlinear_arith)
        requires
            0 <= r < rows,
            0 <= c < columns,
    ;
    assert(0 <= r * columns) by (nonlinear_arith)
        requires
            0 <= r,
            0 <= c < columns,
    ;
    assert(rows * columns <= rows * columns * channels) by (nonlinear_arith)
        requires
            0 <= rows * columns,
            1 <= channels,
    ;
    let p = r * columns + c;
    assert(0 <= p * channels && p * channels + channels <= rows * columns * channels)
        by (nonlinear_arith)
        requires
            0 <= p < rows * columns,
            0 <= k < channels,
    ;
}

/// The sample after the last of a pixel is the first of the next pixel, and the
/// pixel after the last of a row is the first of the next row.
proof fn lemma_flat_next(r: int, c: int, columns: int, channels: int)
    ensures
        flat(r, c, channels, columns, channels) == flat(r, c + 1, 0, columns, channels),
        flat(r, columns, 0, columns, channels) == flat(r + 1, 0, 0, columns, channels),
{
    assert((r * columns + c) * channels + channels == (r * columns + c + 1) * channels)
        by (nonlinear_arith);
    assert((r * columns + columns) * channels == ((r + 1) * columns) * channels)
        by (nonlinear_arith);
}

/// Two samples of pixels within a picture lie at one place only where they are the
/// same sample of the same pixel.
proof fn lemma_flat_unique(
    r: int,
    c: int,
    k: int,
    r2: int,
    c2: int,
    k2: int,
    columns: int,
    channels: int,
)
    requires
        0 <= r,
        0 <= r2,
        0 <= c < columns,
        0 <= c2 < columns,
        0 <= k < channels,
        0 <= k2 < channels,
        flat(r, c, k, columns, channels) == flat(r2, c2, k2, columns, channels),
    ensures
        r == r2 && c == c2 && k == k2,
{
    let p = r * columns + c;
    let p2 = r2 * columns + c2;
    assert(p == p2 && k == k2) by (nonlinear_arith)
        requires
            0 <= p,
            0 <= p2,
            0 <= k < channels,
            0 <= k2 < channels,
            p * channels + k == p2 * channels + k2,
    ;
    assert(r == r2 && c == c2) by (nonlinear_arith)
        requires
            0 <= r,
            0 <= r2,
            0 <= c < columns,
            0 <= c2 < columns,
            r * columns + c == r2 * columns + c2,
    ;
}

/// The stored pixel that the table gives for a pixel that is shown lies in the
/// stored picture.
pub proof fn lemma_shown_within(orientation: int, height: int, width: int, r: int, c: int)
    requires
        0 <= r < shown_rows(orientation, height, width),
        0 <= c < shown_columns(orientation, height, width),
    ensures
        0 <= shown(orientation, height, width, r, c).0 < height,
        0 <= shown(orientation, height, width, r, c).1 < width,
{
}

/// Whether an orientation turns the rows into columns (5 to 8).
pub fn transposes(orientation: i32) -> (turns: bool)
    ensures
        turns == turns_rows(orientation as int),
{
    5 <= orientation && orientation <= 8
}

/// The side of the square tiles that a picture whose rows become columns is turned
/// in, so that what is read and what is written stay in the caches.
const TILE: usize = 64;

/// Why an orientation is refused.
pub open spec fn orientation_refusal(orientation: int) -> Seq<char> {
    "an EXIF orientation is 1 to 8, or 0 for none, not "@ + signed_decimal(orientation)
}

/// Why samples are not a picture of their size.
pub open spec fn size_refusal(height: nat, width: nat, channels: nat, count: nat) -> Seq<char> {
    "a picture of "@ + decimal(height) + " x "@ + decimal(width) + " pixels of "@ + decimal(channels)
        + " samples, not of "@ + decimal(count) + " samples"@
}

/// The error of an orientation that is not one.
fn not_an_orientation(orientation: i32) -> (error: Error)
    ensures
        error matches Error::Options(message) && message@ == orientation_refusal(orientation as int),
{
    let mut message = text("an EXIF orientation is 1 to 8, or 0 for none, not ");
    add_signed(&mut message, orientation as i64);
    Error::Options(message)
}

/// The error of samples that are not of the picture's size.
fn not_of_size(height: usize, width: usize, channels: usize, count: usize) -> (error: Error)
    ensures
        error matches Error::Options(message) && message@ == size_refusal(
            height as nat,
            width as nat,
            channels as nat,
            count as nat,
        ),
{
    let mut message = text("a picture of ");
    add_number(&mut message, height as u64);
    add_text(&mut message, " x ");
    add_number(&mut message, width as u64);
    add_text(&mut message, " pixels of ");
    add_number(&mut message, channels as u64);
    add_text(&mut message, " samples, not of ");
    add_number(&mut message, count as u64);
    add_text(&mut message, " samples");
    Error::Options(message)
}

/// The rows of the picture as stored, each forwards or backwards, from the top or
/// the bottom: orientations 1 to 4.
fn turned_rows<T: Copy>(
    samples: &[T],
    height: usize,
    width: usize,
    channels: usize,
    orientation: i32,
) -> (turned: Vec<T>)
    requires
        0 <= orientation <= 4,
        channels > 0,
        height * width * channels == samples@.len(),
    ensures
        turned_as_shown(turned@, samples@, orientation as int, height as int, width as int, channels as int),
{
    let up = orientation == 3 || orientation == 4;
    let back = orientation == 2 || orientation == 3;
    let ghost h = height as int;
    let ghost w = width as int;
    let ghost ch = channels as int;
    let ghost o = orientation as int;
    let mut turned: Vec<T> = Vec::with_capacity(samples.len());
    let mut r: usize = 0;
    assert(flat(0, 0, 0, w, ch) == 0) by (nonlinear_arith);
    while r < height
        invariant
            0 <= o <= 4,
            h == height,
            w == width,
            ch == channels,
            channels > 0,
            up == (o == 3 || o == 4),
            back == (o == 2 || o == 3),
            height * width * channels == samples@.len(),
            r <= height,
            turned@.len() == flat(r as int, 0, 0, w, ch),
            forall|r2: int, c2: int, k2: int|
                0 <= r2 < h && 0 <= c2 < w && 0 <= k2 < ch && flat(r2, c2, k2, w, ch)
                    < turned@.len() ==> turned@[flat(r2, c2, k2, w, ch)] == samples@[flat(
                    shown(o, h, w, r2, c2).0,
                    shown(o, h, w, r2, c2).1,
                    k2,
                    w,
                    ch,
                )],
        decreases height - r,
    {
        let source = if up { height - 1 - r } else { r };
        let mut c: usize = 0;
        while c < width
            invariant
                0 <= o <= 4,
                h == height,
                w == width,
                ch == channels,
                channels > 0,
                up == (o == 3 || o == 4),
                back == (o == 2 || o == 3),
                height * width * channels == samples@.len(),
                r < height,
                source == shown(o, h, w, r as int, 0).0,
                c <= width,
                turned@.len() == flat(r as int, c as int, 0, w, ch),
                forall|r2: int, c2: int, k2: int|
                    0 <= r2 < h && 0 <= c2 < w && 0 <= k2 < ch && flat(r2, c2, k2, w, ch)
                        < turned@.len() ==> turned@[flat(r2, c2, k2, w, ch)] == samples@[flat(
                        shown(o, h, w, r2, c2).0,
                        shown(o, h, w, r2, c2).1,
                        k2,
                        w,
                        ch,
                    )],
            decreases width - c,
        {
            let column = if back { width - 1 - c } else { c };
            assert(shown(o, h, w, r as int, c as int) == (source as int, column as int));
            proof {
                lemma_flat(source as int, column as int, 0, h, w, ch);
                lemma_flat(r as int, c as int, 0, h, w, ch);
                assert(samples@.len() == samples.len());
            }
            let from = (source * width + column) * channels;
            let mut k: usize = 0;
            while k < channels
                invariant
                    0 <= o <= 4,
                    h == height,
                    w == width,
                    ch == channels,
                    height * width * channels == samples@.len(),
                    r < height,
                    c < width,
                    source < height,
                    column < width,
                    shown(o, h, w, r as int, c as int) == (source as int, column as int),
                    from == flat(source as int, column as int, 0, w, ch),
                    k <= channels,
                    turned@.len() == flat(r as int, c as int, k as int, w, ch),
                    forall|r2: int, c2: int, k2: int|
                        0 <= r2 < h && 0 <= c2 < w && 0 <= k2 < ch && flat(r2, c2, k2, w, ch)
                            < turned@.len() ==> turned@[flat(r2, c2, k2, w, ch)]
                            == samples@[flat(
                            shown(o, h, w, r2, c2).0,
                            shown(o, h, w, r2, c2).1,
                            k2,
                            w,
                            ch,
                        )],
                decreases channels - k,
            {
                proof {
                    lemma_flat(source as int, column as int, k as int, h, w, ch);
                    lemma_flat(r as int, c as int, k as int, h, w, ch);
                    assert(samples@.len() == samples.len());
                }
                let value = samples[from + k];
                let ghost before = turned@;
                turned.push(value);
                proof {
                    assert forall|r2: int, c2: int, k2: int|
                        0 <= r2 < h && 0 <= c2 < w && 0 <= k2 < ch && flat(r2, c2, k2, w, ch)
                            < turned@.len() implies turned@[flat(r2, c2, k2, w, ch)]
                        == samples@[flat(
                        shown(o, h, w, r2, c2).0,
                        shown(o, h, w, r2, c2).1,
                        k2,
                        w,
                        ch,
                    )] by {
                        if flat(r2, c2, k2, w, ch) == before.len() {
                            lemma_flat_unique(r2, c2, k2, r as int, c as int, k as int, w, ch);
                        }
                    }
                }
                k = k + 1;
            }
            proof {
                lemma_flat_next(r as int, c as int, w, ch);
            }
            c = c + 1;
        }
        proof {
            lemma_flat_next(r as int, c as int, w, ch);
        }
        r = r + 1;
    }
    proof {
        assert(flat(h, 0, 0, w, ch) == h * w * ch) by (nonlinear_arith);
        assert forall|r2: int, c2: int|
            0 <= r2 < h && 0 <= c2 < w implies #[trigger] pixel_shown(
            turned@,
            samples@,
            o,
            h,
            w,
            ch,
            r2,
            c2,
        ) by {
            assert forall|k2: int| 0 <= k2 < ch implies turned@[flat(r2, c2, k2, w, ch)]
                == samples@[flat(shown(o, h, w, r2, c2).0, shown(o, h, w, r2, c2).1, k2, w, ch)] by {
                lemma_flat(r2, c2, k2, h, w, ch);
            }
        }
    }
    turned
}

/// Every pixel of rows `r_from..r_to` and columns `c_from..c_to` of `turned` is the
/// stored pixel that the table gives.
pub open spec fn all_shown<T>(
    turned: Seq<T>,
    samples: Seq<T>,
    orientation: int,
    height: int,
    width: int,
    channels: int,
    r_from: int,
    r_to: int,
    c_from: int,
    c_to: int,
) -> bool {
    forall|r: int, c: int|
        r_from <= r < r_to && c_from <= c < c_to ==> #[trigger] pixel_shown(
            turned,
            samples,
            orientation,
            height,
            width,
            channels,
            r,
            c,
        )
}

/// Writing a sample of a pixel keeps every other pixel as it was.
proof fn lemma_others_kept<T>(
    turned: Seq<T>,
    samples: Seq<T>,
    orientation: int,
    height: int,
    width: int,
    channels: int,
    r: int,
    c: int,
    k: int,
    value: T,
    r2: int,
    c2: int,
)
    requires
        0 <= r < shown_rows(orientation, height, width),
        0 <= r2 < shown_rows(orientation, height, width),
        0 <= c < shown_columns(orientation, height, width),
        0 <= c2 < shown_columns(orientation, height, width),
        0 <= k < channels,
        turned.len() == shown_rows(orientation, height, width) * shown_columns(
            orientation,
            height,
            width,
        ) * channels,
        r != r2 || c != c2,
        pixel_shown(turned, samples, orientation, height, width, channels, r2, c2),
    ensures
        pixel_shown(
            turned.update(flat(r, c, k, shown_columns(orientation, height, width), channels), value),
            samples,
            orientation,
            height,
            width,
            channels,
            r2,
            c2,
        ),
{
    let columns = shown_columns(orientation, height, width);
    let updated = turned.update(flat(r, c, k, columns, channels), value);
    let (sr, sc) = shown(orientation, height, width, r2, c2);
    assert forall|k2: int| 0 <= k2 < channels implies updated[flat(r2, c2, k2, columns, channels)]
        == samples[#[trigger] flat(sr, sc, k2, width, channels)] by {
        lemma_flat(r2, c2, k2, shown_rows(orientation, height, width), columns, channels);
        lemma_flat(r, c, k, shown_rows(orientation, height, width), columns, channels);
        if flat(r2, c2, k2, columns, channels) == flat(r, c, k, columns, channels) {
            lemma_flat_unique(r2, c2, k2, r, c, k, columns, channels);
        }
        assert(turned[flat(r2, c2, k2, columns, channels)] == samples[flat(sr, sc, k2, width, channels)]);
        assert(updated[flat(r2, c2, k2, columns, channels)] == turned[flat(r2, c2, k2, columns, channels)]);
    }
}

/// The columns of the picture as stored, each read from its top or its bottom, in
/// square tiles: orientations 5 to 8, whose rows are the stored columns.
fn turned_columns<T: Copy>(
    samples: &[T],
    height: usize,
    width: usize,
    channels: usize,
    orientation: i32,
) -> (turned: Vec<T>)
    requires
        5 <= orientation <= 8,
        channels > 0,
        samples@.len() > 0,
        height * width * channels == samples@.len(),
    ensures
        turned_as_shown(turned@, samples@, orientation as int, height as int, width as int, channels as int),
{
    let up = orientation == 6 || orientation == 7;
    let back = orientation == 7 || orientation == 8;
    let ghost h = height as int;
    let ghost w = width as int;
    let ghost ch = channels as int;
    let ghost o = orientation as int;
    let rows = width;
    let columns = height;
    proof {
        assert(rows * columns * ch == h * w * ch) by (nonlinear_arith)
            requires
                rows == w,
                columns == h,
        ;
    }
    let first = samples[0];
    let mut turned: Vec<T> = Vec::with_capacity(samples.len());
    while turned.len() < samples.len()
        invariant
            turned@.len() <= samples@.len(),
        decreases samples@.len() - turned@.len(),
    {
        turned.push(first);
    }
    let mut r0: usize = 0;
    while r0 < rows
        invariant
            5 <= o <= 8,
            h == height,
            w == width,
            ch == channels,
            rows == w,
            columns == h,
            channels > 0,
            up == (o == 6 || o == 7),
            back == (o == 7 || o == 8),
            height * width * channels == samples@.len(),
            rows * columns * ch == samples@.len(),
            turned@.len() == samples@.len(),
            r0 <= rows,
            all_shown(turned@, samples@, o, h, w, ch, 0, r0 as int, 0, columns as int),
        decreases rows - r0,
    {
        let r_end = if rows - r0 > TILE { r0 + TILE } else { rows };
        let mut c0: usize = 0;
        while c0 < columns
            invariant
                5 <= o <= 8,
                h == height,
                w == width,
                ch == channels,
                rows == w,
                columns == h,
                channels > 0,
                up == (o == 6 || o == 7),
                back == (o == 7 || o == 8),
                height * width * channels == samples@.len(),
                rows * columns * ch == samples@.len(),
                turned@.len() == samples@.len(),
                r0 < r_end <= rows,
                c0 <= columns,
                all_shown(turned@, samples@, o, h, w, ch, 0, r0 as int, 0, columns as int),
                all_shown(turned@, samples@, o, h, w, ch, r0 as int, r_end as int, 0, c0 as int),
            decreases columns - c0,
        {
            let c_end = if columns - c0 > TILE { c0 + TILE } else { columns };
            let mut r = r0;
            while r < r_end
                invariant
                    5 <= o <= 8,
                    h == height,
                    w == width,
                    ch == channels,
                    rows == w,
                    columns == h,
                    channels > 0,
                    up == (o == 6 || o == 7),
                    back == (o == 7 || o == 8),
                    height * width * channels == samples@.len(),
                    rows * columns * ch == samples@.len(),
                    turned@.len() == samples@.len(),
                    r0 < r_end <= rows,
                    c0 < c_end <= columns,
                    r0 <= r <= r_end,
                    all_shown(turned@, samples@, o, h, w, ch, 0, r0 as int, 0, columns as int),
                    all_shown(turned@, samples@, o, h, w, ch, r0 as int, r_end as int, 0, c0 as int),
                    all_shown(turned@, samples@, o, h, w, ch, r0 as int, r as int, c0 as int, c_end as int),
                decreases r_end - r,
            {
                let column = if back { width - 1 - r } else { r };
                let mut c = c0;
                while c < c_end
                    invariant
                        5 <= o <= 8,
                        h == height,
                        w == width,
                        ch == channels,
                        rows == w,
                        columns == h,
                        channels > 0,
                        up == (o == 6 || o == 7),
                        back == (o == 7 || o == 8),
                        height * width * channels == samples@.len(),
                        rows * columns * ch == samples@.len(),
                        turned@.len() == samples@.len(),
                        r0 < r_end <= rows,
                        c0 < c_end <= columns,
                        r0 <= r < r_end,
                        column == shown(o, h, w, r as int, 0).1,
                        c0 <= c <= c_end,
                        all_shown(turned@, samples@, o, h, w, ch, 0, r0 as int, 0, columns as int),
                        all_shown(turned@, samples@, o, h, w, ch, r0 as int, r_end as int, 0, c0 as int),
                        all_shown(turned@, samples@, o, h, w, ch, r0 as int, r as int, c0 as int, c_end as int),
                        all_shown(turned@, samples@, o, h, w, ch, r as int, r + 1, c0 as int, c as int),
                    decreases c_end - c,
                {
                    let stored = if up { height - 1 - c } else { c };
                    assert(shown(o, h, w, r as int, c as int) == (stored as int, column as int));
                    proof {
                        lemma_flat(stored as int, column as int, 0, h, w, ch);
                        lemma_flat(r as int, c as int, 0, w, h, ch);
                        assert(samples@.len() == samples.len());
                    }
                    let from = (stored * width + column) * channels;
                    let to = (r * columns + c) * channels;
                    let mut k: usize = 0;
                    while k < channels
                        invariant
                            5 <= o <= 8,
                            h == height,
                            w == width,
                            ch == channels,
                            rows == w,
                            columns == h,
                            channels > 0,
                            height * width * channels == samples@.len(),
                            rows * columns * ch == samples@.len(),
                            turned@.len() == samples@.len(),
                            r0 < r_end <= rows,
                            c0 <= c < c_end <= columns,
                            r0 <= r < r_end,
                            stored < height,
                            column < width,
                            shown(o, h, w, r as int, c as int) == (stored as int, column as int),
                            from == flat(stored as int, column as int, 0, w, ch),
                            to == flat(r as int, c as int, 0, h, ch),
                            k <= channels,
                            all_shown(turned@, samples@, o, h, w, ch, 0, r0 as int, 0, columns as int),
                            all_shown(turned@, samples@, o, h, w, ch, r0 as int, r_end as int, 0, c0 as int),
                            all_shown(turned@, samples@, o, h, w, ch, r0 as int, r as int, c0 as int, c_end as int),
                            all_shown(turned@, samples@, o, h, w, ch, r as int, r + 1, c0 as int, c as int),
                            forall|k2: int|
                                0 <= k2 < k ==> turned@[flat(r as int, c as int, k2, h, ch)]
                                    == samples@[flat(stored as int, column as int, k2, w, ch)],
                        decreases channels - k,
                    {
                        proof {
                            lemma_flat(stored as int, column as int, k as int, h, w, ch);
                            lemma_flat(r as int, c as int, k as int, w, h, ch);
                            assert(samples@.len() == samples.len());
                        }
                        let value = samples[from + k];
                        let ghost before = turned@;
                        turned.set(to + k, value);
                        proof {
                            assert forall|r2: int, c2: int|
                                (0 <= r2 < r0 && 0 <= c2 < columns || r0 <= r2 < r_end && 0 <= c2
                                    < c0 || r0 <= r2 < r && c0 <= c2 < c_end || r2 == r && c0 <= c2
                                    < c) implies #[trigger] pixel_shown(
                                turned@,
                                samples@,
                                o,
                                h,
                                w,
                                ch,
                                r2,
                                c2,
                            ) by {
                                assert(pixel_shown(before, samples@, o, h, w, ch, r2, c2));
                                lemma_others_kept(
                                    before,
                                    samples@,
                                    o,
                                    h,
                                    w,
                                    ch,
                                    r as int,
                                    c as int,
                                    k as int,
                                    value,
                                    r2,
                                    c2,
                                );
                            }
                            assert forall|k2: int| 0 <= k2 < k + 1 implies turned@[flat(
                                r as int,
                                c as int,
                                k2,
                                h,
                                ch,
                            )] == samples@[flat(stored as int, column as int, k2, w, ch)] by {
                                if k2 < k {
                                    lemma_flat(r as int, c as int, k2, w, h, ch);
                                    if flat(r as int, c as int, k2, h, ch) == flat(
                                        r as int,
                                        c as int,
                                        k as int,
                                        h,
                                        ch,
                                    ) {
                                        lemma_flat_unique(
                                            r as int,
                                            c as int,
                                            k2,
                                            r as int,
                                            c as int,
                                            k as int,
                                            h,
                                            ch,
                                        );
                                    }
                                }
                            }
                        }
                        k = k + 1;
                    }
                    proof {
                        assert(pixel_shown(turned@, samples@, o, h, w, ch, r as int, c as int));
                    }
                    c = c + 1;
                }
                r = r + 1;
            }
            c0 = c_end;
        }
        r0 = r_end;
    }
    turned
}

/// The picture of `height x width` pixels of `channels` interleaved samples, turned
/// and mirrored as EXIF's `orientation` says to show it: 1 to 8, or 0 where the file
/// has none, which is 1.
///
/// # Errors
///
/// [`Error::Options`] for an orientation other than 0 to 8, or a picture that is not
/// of that size.
pub fn oriented<T: Copy>(
    samples: &[T],
    height: usize,
    width: usize,
    channels: usize,
    orientation: i32,
) -> (result: Result<Oriented<T>, Error>)
    ensures
        match result {
            Ok(turned) => {
                &&& is_orientation(orientation as int)
                &&& channels > 0
                &&& height * width * channels == samples@.len()
                &&& turned.height == shown_rows(orientation as int, height as int, width as int)
                &&& turned.width == shown_columns(orientation as int, height as int, width as int)
                &&& turned_as_shown(
                    turned.samples@,
                    samples@,
                    orientation as int,
                    height as int,
                    width as int,
                    channels as int,
                )
            },
            Err(error) => {
                &&& !(is_orientation(orientation as int) && channels > 0 && height * width
                    * channels == samples@.len())
                &&& error matches Error::Options(message)
                &&& message@ == if !is_orientation(orientation as int) {
                    orientation_refusal(orientation as int)
                } else {
                    size_refusal(height as nat, width as nat, channels as nat, samples@.len())
                }
            },
        },
{
    if !(0 <= orientation && orientation <= 8) {
        return Err(not_an_orientation(orientation));
    }
    let count = match height.checked_mul(width) {
        Some(pixels) => pixels.checked_mul(channels),
        None => None,
    };
    let fits = match count {
        Some(count) => count == samples.len(),
        None => false,
    };
    if channels == 0 || !fits {
        proof {
            if channels > 0 && height * width * channels == samples@.len() {
                assert(height * width <= height * width * channels) by (nonlinear_arith)
                    requires
                        channels > 0,
                        height * width >= 0,
                ;
            }
        }
        return Err(not_of_size(height, width, channels, samples.len()));
    }
    if samples.len() == 0 {
        let (rows, columns) = if transposes(orientation) {
            (width, height)
        } else {
            (height, width)
        };
        proof {
            assert(height * width == 0) by (nonlinear_arith)
                requires
                    height * width * channels == 0,
                    channels > 0,
            ;
            assert(rows * columns == 0) by (nonlinear_arith)
                requires
                    height * width == 0,
                    rows == height && columns == width || rows == width && columns == height,
            ;
            assert(rows * columns * channels == 0 && (rows == 0 || columns == 0))
                by (nonlinear_arith)
                requires
                    rows * columns == 0,
            ;
        }
        return Ok(Oriented { samples: Vec::new(), height: rows, width: columns });
    }
    if !transposes(orientation) {
        let turned = turned_rows(samples, height, width, channels, orientation);
        return Ok(Oriented { samples: turned, height, width });
    }
    let turned = turned_columns(samples, height, width, channels, orientation);
    Ok(Oriented { samples: turned, height: width, width: height })
}


/// The pixel of what is shown that stored pixel `(r, c)` becomes: the table read
/// backwards.
pub open spec fn shown_at(orientation: int, height: int, width: int, r: int, c: int) -> (int, int) {
    if orientation == 2 {
        (r, width - 1 - c)
    } else if orientation == 3 {
        (height - 1 - r, width - 1 - c)
    } else if orientation == 4 {
        (height - 1 - r, c)
    } else if orientation == 5 {
        (c, r)
    } else if orientation == 6 {
        (c, height - 1 - r)
    } else if orientation == 7 {
        (width - 1 - c, height - 1 - r)
    } else if orientation == 8 {
        (width - 1 - c, r)
    } else {
        (r, c)
    }
}

/// Every stored pixel is shown once, and only once: the table takes the pixel that
/// [`shown_at`] gives back to it, and no two pixels of what is shown to one.
pub proof fn lemma_every_pixel_shown_once(orientation: int, height: int, width: int, r: int, c: int)
    requires
        0 <= r < height,
        0 <= c < width,
    ensures
        ({
            let (sr, sc) = shown_at(orientation, height, width, r, c);
            &&& 0 <= sr < shown_rows(orientation, height, width)
            &&& 0 <= sc < shown_columns(orientation, height, width)
            &&& shown(orientation, height, width, sr, sc) == (r, c)
        }),
        forall|r1: int, c1: int, r2: int, c2: int|
            0 <= r1 < shown_rows(orientation, height, width) && 0 <= c1 < shown_columns(orientation, height, width)
                && 0 <= r2 < shown_rows(orientation, height, width) && 0 <= c2 < shown_columns(
                orientation,
                height,
                width,
            ) && #[trigger] shown(orientation, height, width, r1, c1) == #[trigger] shown(
                orientation,
                height,
                width,
                r2,
                c2,
            ) ==> r1 == r2 && c1 == c2,
{
}

/// The orientation that undoes another: 6 and 8 undo each other, and every other
/// orientation undoes itself.
pub open spec fn undoing(orientation: int) -> int {
    if orientation == 6 {
        8
    } else if orientation == 8 {
        6
    } else {
        orientation
    }
}

/// The pixel that the undoing orientation shows at `(r, c)` is the one that the
/// orientation shows the stored pixel `(r, c)` at.
proof fn lemma_undone_pixel(orientation: int, height: int, width: int, r: int, c: int)
    requires
        is_orientation(orientation),
        0 <= r < height,
        0 <= c < width,
    ensures
        shown_rows(undoing(orientation), shown_rows(orientation, height, width), shown_columns(orientation, height, width))
            == height,
        shown_columns(undoing(orientation), shown_rows(orientation, height, width), shown_columns(orientation, height, width))
            == width,
        ({
            let rows = shown_rows(orientation, height, width);
            let columns = shown_columns(orientation, height, width);
            let (r1, c1) = shown(undoing(orientation), rows, columns, r, c);
            &&& 0 <= r1 < rows
            &&& 0 <= c1 < columns
            &&& shown(orientation, height, width, r1, c1) == (r, c)
        }),
{
}

/// Where sample `i` of a picture lies: its pixel and its channel.
proof fn lemma_place_of(i: int, height: int, width: int, channels: int) -> (place: (int, int, int))
    requires
        0 <= i < height * width * channels,
        0 <= height,
        0 <= width,
        0 <= channels,
    ensures
        0 <= place.0 < height,
        0 <= place.1 < width,
        0 <= place.2 < channels,
        flat(place.0, place.1, place.2, width, channels) == i,
{
    assert(channels > 0 && width > 0 && height > 0) by (nonlinear_arith)
        requires
            0 <= i < height * width * channels,
            0 <= height,
            0 <= width,
            0 <= channels,
    ;
    let p = i / channels;
    let k = i % channels;
    lemma_fundamental_div_mod(i, channels);
    lemma_mod_pos_bound(i, channels);
    assert(height * width * channels == channels * (height * width)) by (nonlinear_arith);
    lemma_multiply_divide_lt(i, channels, height * width);
    assert(p >= 0) by (nonlinear_arith)
        requires
            i == channels * p + k,
            0 <= k < channels,
            0 <= i,
    ;
    let r = p / width;
    let c = p % width;
    lemma_fundamental_div_mod(p, width);
    lemma_mod_pos_bound(p, width);
    assert(height * width == width * height) by (nonlinear_arith);
    lemma_multiply_divide_lt(p, width, height);
    assert(r >= 0) by (nonlinear_arith)
        requires
            p == width * r + c,
            0 <= c < width,
            0 <= p,
    ;
    assert(flat(r, c, k, width, channels) == i) by (nonlinear_arith)
        requires
            i == channels * p + k,
            p == width * r + c,
    ;
    (r, c, k)
}

/// Turning a picture as an orientation says, and what is shown as the orientation
/// that undoes it says, gives the picture back: its rows, its columns and every
/// sample.
pub proof fn lemma_turned_back<T>(
    samples: Seq<T>,
    turned: Seq<T>,
    back: Seq<T>,
    orientation: int,
    height: int,
    width: int,
    channels: int,
)
    requires
        is_orientation(orientation),
        0 <= height,
        0 <= width,
        0 <= channels,
        samples.len() == height * width * channels,
        turned_as_shown(turned, samples, orientation, height, width, channels),
        turned_as_shown(
            back,
            turned,
            undoing(orientation),
            shown_rows(orientation, height, width),
            shown_columns(orientation, height, width),
            channels,
        ),
    ensures
        shown_rows(undoing(orientation), shown_rows(orientation, height, width), shown_columns(orientation, height, width))
            == height,
        shown_columns(undoing(orientation), shown_rows(orientation, height, width), shown_columns(orientation, height, width))
            == width,
        back == samples,
{
    let rows = shown_rows(orientation, height, width);
    let columns = shown_columns(orientation, height, width);
    let u = undoing(orientation);
    assert(shown_rows(u, rows, columns) == height && shown_columns(u, rows, columns) == width);
    assert forall|i: int| 0 <= i < samples.len() implies back[i] == samples[i] by {
        let (r, c, k) = lemma_place_of(i, height, width, channels);
        lemma_undone_pixel(orientation, height, width, r, c);
        let (r1, c1) = shown(u, rows, columns, r, c);
        assert(pixel_shown(back, turned, u, rows, columns, channels, r, c));
        assert(back[flat(r, c, k, width, channels)] == turned[flat(r1, c1, k, columns, channels)]);
        assert(pixel_shown(turned, samples, orientation, height, width, channels, r1, c1));
        let seen = shown(orientation, height, width, r1, c1);
        assert(seen.0 == r && seen.1 == c);
        assert(turned[flat(r1, c1, k, columns, channels)] == samples[flat(seen.0, seen.1, k, width, channels)]);
    }
    assert(back =~= samples);
}

/// A picture without an orientation, or of orientation 1, is shown as it is stored.
pub proof fn lemma_upright_unchanged<T>(
    samples: Seq<T>,
    turned: Seq<T>,
    orientation: int,
    height: int,
    width: int,
    channels: int,
)
    requires
        orientation == 0 || orientation == 1,
        0 <= height,
        0 <= width,
        0 <= channels,
        samples.len() == height * width * channels,
        turned_as_shown(turned, samples, orientation, height, width, channels),
    ensures
        shown_rows(orientation, height, width) == height,
        shown_columns(orientation, height, width) == width,
        turned == samples,
{
    assert forall|i: int| 0 <= i < samples.len() implies turned[i] == samples[i] by {
        let (r, c, k) = lemma_place_of(i, height, width, channels);
        assert(pixel_shown(turned, samples, orientation, height, width, channels, r, c));
        let seen = shown(orientation, height, width, r, c);
        assert(seen.0 == r && seen.1 == c);
        assert(turned[flat(r, c, k, width, channels)] == samples[flat(seen.0, seen.1, k, width, channels)]);
    }
    assert(turned =~= samples);
}

} // verus!
