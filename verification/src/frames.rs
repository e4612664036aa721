//! The components of a file on one canvas: the ratio of each component's cells to
//! the canvas, and the canvas's shape, `height x width`. One component's canvas is
//! its blocks. Several share the picture rounded up to whole MCUs, and each needs the
//! largest sampling factors to be whole multiples of its own.
use vstd::prelude::*;
use vstd::arithmetic::div_mod::*;

use crate::error::{add_number, add_text, decimal, text, Error};
use crate::operators::Shape;

verus! {

/// The samples of a block across and down.
pub const BLOCK: usize = 8;

/// A component on the canvas: its blocks, `rows x columns`, and the ratio of its
/// cells, `(down, across)`: the canvas's samples per sample of the component.
#[derive(Debug, Clone, Copy)]
pub struct ChannelShape {
    /// Block rows.
    pub rows: usize,
    /// Blocks across.
    pub columns: usize,
    /// The ratio of its cells, `(down, across)`.
    pub ratio: (usize, usize),
}

impl ChannelShape {
    /// `n`: the samples of the canvas in a cell.
    pub fn cells(&self) -> (cells: usize)
        requires
            self.ratio.0 * self.ratio.1 <= usize::MAX,
        ensures
            cells == self.ratio.0 * self.ratio.1,
    {
        self.ratio.0 * self.ratio.1
    }

    /// The rows and columns of the canvas that the component's blocks cover.
    pub fn extent(&self) -> (extent: (usize, usize))
        requires
            extent_fits(*self),
        ensures
            extent == (
                (self.rows * 8 * self.ratio.0) as usize,
                (self.columns * 8 * self.ratio.1) as usize,
            ),
    {
        (self.rows * BLOCK * self.ratio.0, self.columns * BLOCK * self.ratio.1)
    }
}

/// The components of a file, on one canvas of `height x width` samples.
#[derive(Debug, Clone)]
pub struct FrameShape {
    channels: Vec<ChannelShape>,
    height: usize,
    width: usize,
}

/// `ceil(size / (8 ratio))`: a component's blocks, as libjpeg counts them.
pub open spec fn blocks_over(size: int, ratio: int) -> int {
    if size % (8 * ratio) == 0 {
        size / (8 * ratio)
    } else {
        size / (8 * ratio) + 1
    }
}

/// A component's blocks over `size` samples of the picture, its cells `ratio`
/// samples of the canvas.
pub fn blocks_of(size: usize, ratio: usize) -> (blocks: usize)
    requires
        1 <= ratio,
        8 * ratio <= usize::MAX,
    ensures
        blocks == blocks_over(size as int, ratio as int),
{
    let step = BLOCK * ratio;
    proof {
        let (n, d) = (size as int, step as int);
        lemma_fundamental_div_mod(n, d);
        lemma_mod_pos_bound(n, d);
        lemma_div_pos_is_pos(n, d);
        if n % d != 0 {
            assert(n / d < n) by (nonlinear_arith)
                requires
                    n == d * (n / d) + n % d,
                    0 < n % d,
                    1 <= d,
                    0 <= n / d,
            ;
        }
    }
    if size % step == 0 {
        size / step
    } else {
        size / step + 1
    }
}

/// Whether a component's cells tile a canvas of `height x width`.
pub open spec fn cells_tile(channel: ChannelShape, height: int, width: int) -> bool {
    &&& 1 <= channel.ratio.0
    &&& 1 <= channel.ratio.1
    &&& height % channel.ratio.0 as int == 0
    &&& width % channel.ratio.1 as int == 0
}

/// Whether a component's blocks lie within a canvas of `height x width`.
pub open spec fn blocks_within(channel: ChannelShape, height: int, width: int) -> bool {
    channel.rows * 8 * channel.ratio.0 <= height && channel.columns * 8 * channel.ratio.1 <= width
}

/// Why a component's cells do not tile the canvas.
pub open spec fn cells_refusal(channel: ChannelShape, height: int, width: int) -> Seq<char> {
    "cells of "@ + decimal(channel.ratio.0 as nat) + " x "@ + decimal(channel.ratio.1 as nat)
        + " do not tile a canvas of "@ + decimal(height as nat) + " x "@ + decimal(width as nat)
}

/// Why a component's blocks go beyond the canvas.
pub open spec fn beyond_refusal(channel: ChannelShape, height: int, width: int) -> Seq<char> {
    "blocks over "@ + decimal((channel.rows * 8 * channel.ratio.0) as nat) + " x "@ + decimal(
        (channel.columns * 8 * channel.ratio.1) as nat,
    ) + " samples go beyond a canvas of "@ + decimal(height as nat) + " x "@ + decimal(width as nat)
}

/// Whether a component's blocks count in a `usize`, in samples of the canvas.
pub open spec fn extent_fits(channel: ChannelShape) -> bool {
    &&& channel.rows * 8 <= usize::MAX
    &&& channel.columns * 8 <= usize::MAX
    &&& channel.rows * 8 * channel.ratio.0 <= usize::MAX
    &&& channel.columns * 8 * channel.ratio.1 <= usize::MAX
}

/// The first component of a frame whose cells do not tile the canvas or whose blocks
/// go beyond it, and why.
pub open spec fn frame_refusal(channels: Seq<ChannelShape>, height: int, width: int) -> Seq<char> {
    let i = choose|i: int|
        {
            &&& 0 <= i < channels.len()
            &&& !(cells_tile(#[trigger] channels[i], height, width) && blocks_within(
                channels[i],
                height,
                width,
            ))
            &&& forall|k: int|
                0 <= k < i ==> cells_tile(#[trigger] channels[k], height, width) && blocks_within(
                    channels[k],
                    height,
                    width,
                )
        };
    if !cells_tile(channels[i], height, width) {
        cells_refusal(channels[i], height, width)
    } else {
        beyond_refusal(channels[i], height, width)
    }
}

impl FrameShape {
    /// The components, in contracts.
    pub closed spec fn channels_view(&self) -> Seq<ChannelShape> {
        self.channels@
    }

    /// Rows of the canvas, in contracts.
    pub closed spec fn height_view(&self) -> usize {
        self.height
    }

    /// Columns of the canvas, in contracts.
    pub closed spec fn width_view(&self) -> usize {
        self.width
    }

    /// A frame of these channels on a canvas of `height x width`.
    ///
    /// # Errors
    ///
    /// [`Error::Unsupported`] where there is no channel, cells do not tile the
    /// canvas, or blocks go beyond it: the first of them.
    pub fn new(channels: Vec<ChannelShape>, height: usize, width: usize) -> (result: Result<FrameShape, Error>)
        requires
            forall|i: int| 0 <= i < channels@.len() ==> extent_fits(#[trigger] channels@[i]),
        ensures
            match result {
                Ok(frame) => {
                    &&& channels@.len() >= 1
                    &&& forall|i: int|
                        0 <= i < channels@.len() ==> cells_tile(#[trigger] channels@[i], height as int, width as int)
                            && blocks_within(channels@[i], height as int, width as int)
                    &&& frame.channels_view() == channels@
                    &&& frame.height_view() == height
                    &&& frame.width_view() == width
                },
                Err(error) => {
                    &&& error matches Error::Unsupported(message)
                    &&& if channels@.len() == 0 {
                        message@ == "a frame has a channel at least"@
                    } else {
                        message@ == frame_refusal(channels@, height as int, width as int)
                    }
                    &&& !(channels@.len() >= 1 && forall|i: int|
                        0 <= i < channels@.len() ==> cells_tile(#[trigger] channels@[i], height as int, width as int)
                            && blocks_within(channels@[i], height as int, width as int))
                },
            },
    {
        if channels.len() == 0 {
            return Err(Error::Unsupported(text("a frame has a channel at least")));
        }
        let mut i: usize = 0;
        while i < channels.len()
            invariant
                forall|k: int| 0 <= k < channels@.len() ==> extent_fits(#[trigger] channels@[k]),
                i <= channels@.len(),
                forall|k: int|
                    0 <= k < i ==> cells_tile(#[trigger] channels@[k], height as int, width as int)
                        && blocks_within(channels@[k], height as int, width as int),
            decreases channels@.len() - i,
        {
            let channel = channels[i];
            let (down, across) = channel.ratio;
            if down < 1 || across < 1 || height % down != 0 || width % across != 0 {
                let mut message = text("cells of ");
                add_number(&mut message, down as u64);
                add_text(&mut message, " x ");
                add_number(&mut message, across as u64);
                add_text(&mut message, " do not tile a canvas of ");
                add_number(&mut message, height as u64);
                add_text(&mut message, " x ");
                add_number(&mut message, width as u64);
                assert(!cells_tile(channels@[i as int], height as int, width as int));
                return Err(Error::Unsupported(message));
            }
            proof {
                assert(extent_fits(channels@[i as int]));
            }
            let (rows, columns) = channel.extent();
            if rows > height || columns > width {
                let mut message = text("blocks over ");
                add_number(&mut message, rows as u64);
                add_text(&mut message, " x ");
                add_number(&mut message, columns as u64);
                add_text(&mut message, " samples go beyond a canvas of ");
                add_number(&mut message, height as u64);
                add_text(&mut message, " x ");
                add_number(&mut message, width as u64);
                assert(!blocks_within(channels@[i as int], height as int, width as int));
                return Err(Error::Unsupported(message));
            }
            i += 1;
        }
        Ok(FrameShape { channels, height, width })
    }

    /// The frame of one component, whose canvas is its blocks: nothing is free.
    pub fn one(rows: usize, columns: usize) -> (frame: FrameShape)
        requires
            rows * 8 <= usize::MAX,
            columns * 8 <= usize::MAX,
        ensures
            frame.channels_view() == seq![ChannelShape { rows, columns, ratio: (1usize, 1usize) }],
            frame.height_view() == rows * 8,
            frame.width_view() == columns * 8,
    {
        let mut channels: Vec<ChannelShape> = Vec::new();
        channels.push(ChannelShape { rows, columns, ratio: (1, 1) });
        FrameShape { channels, height: rows * BLOCK, width: columns * BLOCK }
    }

    /// The channels.
    pub fn channels(&self) -> (channels: &[ChannelShape])
        ensures
            channels@ == self.channels_view(),
    {
        self.channels.as_slice()
    }

    /// Rows of the canvas.
    pub fn height(&self) -> (height: usize)
        ensures
            height == self.height_view(),
    {
        self.height
    }

    /// Columns of the canvas.
    pub fn width(&self) -> (width: usize)
        ensures
            width == self.width_view(),
    {
        self.width
    }

    /// The shape of one channel's canvas.
    pub fn shape(&self) -> (shape: Shape)
        ensures
            shape == (Shape { height: self.height_view(), width: self.width_view() }),
    {
        Shape { height: self.height, width: self.width }
    }

    /// The samples of one channel's canvas, `H W`.
    pub fn plane(&self) -> (samples: usize)
        requires
            self.height_view() * self.width_view() <= usize::MAX,
        ensures
            samples == self.height_view() * self.width_view(),
    {
        self.height * self.width
    }

    /// The samples of all the channels' canvases, `C H W`.
    pub fn samples(&self) -> (samples: usize)
        requires
            self.channels_view().len() * (self.height_view() * self.width_view()) <= usize::MAX,
        ensures
            samples == self.channels_view().len() * (self.height_view() * self.width_view()),
    {
        proof {
            assert(self.height_view() * self.width_view() <= self.channels_view().len() * (
            self.height_view() * self.width_view()) || self.channels_view().len() == 0) by (nonlinear_arith)
                requires
                    0 <= self.height_view() * self.width_view(),
            ;
        }
        if self.channels.len() == 0 {
            assert(0 * (self.height_view() * self.width_view()) == 0);
            return 0;
        }
        self.channels.len() * (self.height * self.width)
    }

    /// Whether some of the channel's samples are free: cells of several samples, or
    /// samples beyond its blocks.
    pub fn free(&self, channel: &ChannelShape) -> (free: bool)
        requires
            channel.ratio.0 * channel.ratio.1 <= usize::MAX,
            extent_fits(*channel),
        ensures
            free == (channel.ratio.0 * channel.ratio.1 > 1 || channel.rows * 8 * channel.ratio.0
                != self.height_view() || channel.columns * 8 * channel.ratio.1 != self.width_view()),
    {
        let (rows, columns) = channel.extent();
        channel.cells() > 1 || rows != self.height || columns != self.width
    }
}


/// The largest sampling factor across, 1 for none.
pub open spec fn most_across(factors: Seq<(usize, usize)>) -> int
    decreases factors.len(),
{
    if factors.len() == 0 {
        1
    } else {
        let rest = most_across(factors.drop_last());
        if rest < factors.last().0 {
            factors.last().0 as int
        } else {
            rest
        }
    }
}

/// The largest sampling factor down, 1 for none.
pub open spec fn most_down(factors: Seq<(usize, usize)>) -> int
    decreases factors.len(),
{
    if factors.len() == 0 {
        1
    } else {
        let rest = most_down(factors.drop_last());
        if rest < factors.last().1 {
            factors.last().1 as int
        } else {
            rest
        }
    }
}

/// Whether sampling factors `(across, down)` divide the largest: whole cells.
pub open spec fn factor_divides(factor: (usize, usize), most_across: int, most_down: int) -> bool {
    &&& 1 <= factor.0
    &&& 1 <= factor.1
    &&& most_across % factor.0 as int == 0
    &&& most_down % factor.1 as int == 0
}

/// The ratio of the cells of a component of sampling factors `(across, down)`,
/// `(down, across)`.
pub open spec fn ratio_of(factor: (usize, usize), most_across: int, most_down: int) -> (int, int) {
    (most_down / factor.1 as int, most_across / factor.0 as int)
}

/// The blocks, `(rows, columns)`, of a component of sampling factors `(across, down)`
/// in a picture of `size`.
pub open spec fn blocks_for(factor: (usize, usize), most_across: int, most_down: int, size: (usize, usize)) -> (int, int) {
    let ratio = ratio_of(factor, most_across, most_down);
    (blocks_over(size.0 as int, ratio.0), blocks_over(size.1 as int, ratio.1))
}

/// Whether component `i` of a file is one the frame takes.
pub open spec fn component_taken(
    blocks: Seq<(usize, usize)>,
    factors: Seq<(usize, usize)>,
    size: (usize, usize),
    i: int,
) -> bool {
    let (a, d) = (most_across(factors), most_down(factors));
    &&& factor_divides(factors[i], a, d)
    &&& blocks_for(factors[i], a, d, size) == (blocks[i].0 as int, blocks[i].1 as int)
}

/// Why the factors are not one for each component.
pub open spec fn factors_refusal(factors: int, components: int) -> Seq<char> {
    "a sampling factor for each of the components, not "@ + decimal(factors as nat) + " for "@
        + decimal(components as nat)
}

/// Why sampling factors do not divide the largest.
pub open spec fn divide_refusal(factor: (usize, usize), most_across: int, most_down: int) -> Seq<char> {
    "the sampling factors "@ + decimal(factor.0 as nat) + " x "@ + decimal(factor.1 as nat)
        + " do not divide "@ + decimal(most_across as nat) + " x "@ + decimal(most_down as nat)
        + ": only whole cells are taken"@
}

/// Why a component's blocks are not those of the picture.
pub open spec fn picture_refusal(blocks: (usize, usize), size: (usize, usize), expected: (int, int)) -> Seq<char> {
    "a component of "@ + decimal(blocks.0 as nat) + " x "@ + decimal(blocks.1 as nat)
        + " blocks, where a picture of "@ + decimal(size.0 as nat) + " x "@ + decimal(size.1 as nat)
        + " has "@ + decimal(expected.0 as nat) + " x "@ + decimal(expected.1 as nat)
}

/// Why the frame of a file's components is refused: the first component that it does
/// not take.
pub open spec fn file_refusal(blocks: Seq<(usize, usize)>, factors: Seq<(usize, usize)>, size: (usize, usize)) -> Seq<char> {
    let (a, d) = (most_across(factors), most_down(factors));
    let i = choose|i: int|
        {
            &&& 0 <= i < blocks.len()
            &&& !component_taken(blocks, factors, size, i)
            &&& forall|k: int| 0 <= k < i ==> #[trigger] component_taken(blocks, factors, size, k)
        };
    if !factor_divides(factors[i], a, d) {
        divide_refusal(factors[i], a, d)
    } else {
        picture_refusal(blocks[i], size, blocks_for(factors[i], a, d, size))
    }
}

/// `ceil(x / (8 r))` is the least `q` with `x <= 8 r q`.
proof fn lemma_blocks_over(x: int, r: int, q: int)
    requires
        0 <= x,
        1 <= r,
        0 <= q,
    ensures
        x <= 8 * r * blocks_over(x, r),
        x <= 8 * r * q ==> blocks_over(x, r) <= q,
        0 <= blocks_over(x, r),
        8 * r * blocks_over(x, r) < x + 8 * r,
{
    let d = 8 * r;
    lemma_fundamental_div_mod(x, d);
    lemma_mod_pos_bound(x, d);
    lemma_div_pos_is_pos(x, d);
    let (n, m) = (x / d, x % d);
    if m == 0 {
        assert(d * blocks_over(x, r) == x);
    } else {
        assert(d * blocks_over(x, r) == d * n + d) by (nonlinear_arith)
            requires
                blocks_over(x, r) == n + 1,
        ;
    }
    if x <= d * q {
        assert(blocks_over(x, r) <= q) by (nonlinear_arith)
            requires
                x == d * n + m,
                0 <= m < d,
                x <= d * q,
                blocks_over(x, r) == if m == 0 {
                    n
                } else {
                    n + 1
                },
                0 < d,
        ;
    }
}


/// The size of a canvas of MCUs of `most` blocks of 8 over `size` samples of the
/// picture: `8 most ceil(size / (8 most))`.
pub open spec fn canvas_over(size: int, most: int) -> int {
    8 * most * blocks_over(size, most)
}

/// A component's cells tile a canvas of whole MCUs, and its blocks lie within it.
proof fn lemma_channel_on_canvas(size: int, most: int, factor: int, blocks: int)
    requires
        0 <= size,
        1 <= factor,
        1 <= most,
        most % factor == 0,
        blocks == blocks_over(size, most / factor),
    ensures
        1 <= most / factor,
        canvas_over(size, most) % (most / factor) == 0,
        blocks * 8 * (most / factor) <= canvas_over(size, most),
        blocks * 8 <= blocks * 8 * (most / factor),
{
    let r = most / factor;
    lemma_fundamental_div_mod(most, factor);
    assert(most == r * factor) by (nonlinear_arith)
        requires
            most == factor * r + 0,
    ;
    assert(1 <= r) by (nonlinear_arith)
        requires
            most == r * factor,
            1 <= most,
            1 <= factor,
    ;
    let big = blocks_over(size, most);
    lemma_blocks_over(size, most, 0);
    assert(0 <= big);
    assert(canvas_over(size, most) == r * (8 * factor * big)) by (nonlinear_arith)
        requires
            most == r * factor,
            canvas_over(size, most) == 8 * most * big,
    ;
    lemma_mod_multiples_basic(8 * factor * big, r);
    assert((8 * factor * big) * r == r * (8 * factor * big)) by (nonlinear_arith);
    assert(size <= 8 * r * (factor * big)) by (nonlinear_arith)
        requires
            size <= 8 * most * big,
            most == r * factor,
    ;
    assert(0 <= factor * big) by (nonlinear_arith)
        requires
            0 <= factor,
            0 <= big,
    ;
    lemma_blocks_over(size, r, factor * big);
    assert(blocks * 8 * r <= canvas_over(size, most)) by (nonlinear_arith)
        requires
            blocks <= factor * big,
            canvas_over(size, most) == r * (8 * factor * big),
            1 <= r,
    ;
    assert(blocks * 8 <= blocks * 8 * r) by (nonlinear_arith)
        requires
            0 <= blocks,
            1 <= r,
    ;
}

impl FrameShape {
    /// The frame of a file's components: `blocks` are the `(rows, columns)` of each
    /// component's blocks, `factors` their sampling factors `(across, down)`, and
    /// `size` the picture's rows and columns. One component's canvas is its blocks.
    /// Several share the picture rounded up to whole MCUs, and each needs the largest
    /// factors to be whole multiples of its own.
    ///
    /// # Errors
    ///
    /// [`Error::Unsupported`] for factors that are not one for each component, or not
    /// whole multiples, or components that do not have the blocks of the picture.
    pub fn of_file(blocks: &[(usize, usize)], factors: &[(usize, usize)], size: (usize, usize)) -> (result: Result<FrameShape, Error>)
        requires
            forall|i: int|
                0 <= i < factors@.len() ==> size.0 + 8 * (#[trigger] factors@[i]).1 <= usize::MAX
                    && size.1 + 8 * factors@[i].0 <= usize::MAX,
            blocks@.len() == 1 ==> blocks@[0].0 * 8 <= usize::MAX && blocks@[0].1 * 8 <= usize::MAX,
        ensures
            match result {
                Ok(frame) => {
                    &&& 1 <= blocks@.len()
                    &&& blocks@.len() == factors@.len()
                    &&& if blocks@.len() == 1 {
                        &&& frame.channels_view() == seq![
                            ChannelShape { rows: blocks@[0].0, columns: blocks@[0].1, ratio: (1usize, 1usize) },
                        ]
                        &&& frame.height_view() == blocks@[0].0 * 8
                        &&& frame.width_view() == blocks@[0].1 * 8
                    } else {
                        let (a, d) = (most_across(factors@), most_down(factors@));
                        &&& forall|i: int|
                            0 <= i < blocks@.len() ==> #[trigger] component_taken(blocks@, factors@, size, i)
                        &&& frame.channels_view().len() == blocks@.len()
                        &&& forall|i: int|
                            0 <= i < blocks@.len() ==> {
                                let channel = #[trigger] frame.channels_view()[i];
                                &&& channel.rows == blocks@[i].0
                                &&& channel.columns == blocks@[i].1
                                &&& channel.ratio.0 == ratio_of(factors@[i], a, d).0
                                &&& channel.ratio.1 == ratio_of(factors@[i], a, d).1
                            }
                        &&& frame.height_view() == canvas_over(size.0 as int, d)
                        &&& frame.width_view() == canvas_over(size.1 as int, a)
                    }
                },
                Err(error) => {
                    &&& error matches Error::Unsupported(message)
                    &&& if blocks@.len() == 0 || blocks@.len() != factors@.len() {
                        message@ == factors_refusal(factors@.len() as int, blocks@.len() as int)
                    } else {
                        &&& 2 <= blocks@.len()
                        &&& !forall|i: int|
                            0 <= i < blocks@.len() ==> #[trigger] component_taken(blocks@, factors@, size, i)
                        &&& message@ == file_refusal(blocks@, factors@, size)
                    }
                },
            },
    {
        if blocks.len() == 0 || blocks.len() != factors.len() {
            let mut message = text("a sampling factor for each of the components, not ");
            add_number(&mut message, factors.len() as u64);
            add_text(&mut message, " for ");
            add_number(&mut message, blocks.len() as u64);
            return Err(Error::Unsupported(message));
        }
        if blocks.len() == 1 {
            let frame = FrameShape::one(blocks[0].0, blocks[0].1);
            return Ok(frame);
        }
        let mut most_a: usize = 1;
        let mut most_d: usize = 1;
        let mut j: usize = 0;
        while j < factors.len()
            invariant
                forall|i: int|
                    0 <= i < factors@.len() ==> size.0 + 8 * (#[trigger] factors@[i]).1 <= usize::MAX
                        && size.1 + 8 * factors@[i].0 <= usize::MAX,
                1 <= factors@.len(),
                j <= factors@.len(),
                1 <= most_a,
                1 <= most_d,
                most_a == 1 || size.1 + 8 * most_a <= usize::MAX,
                most_d == 1 || size.0 + 8 * most_d <= usize::MAX,
                forall|k: int| 0 <= k < j ==> (#[trigger] factors@[k]).0 <= most_a && factors@[k].1 <= most_d,
                most_a == most_across(factors@.take(j as int)),
                most_d == most_down(factors@.take(j as int)),
            decreases factors@.len() - j,
        {
            let (across, down) = factors[j];
            proof {
                assert(factors@.take(j + 1).drop_last() == factors@.take(j as int));
                assert(factors@.take(j + 1).last() == factors@[j as int]);
            }
            if most_a < across {
                most_a = across;
            }
            if most_d < down {
                most_d = down;
            }
            j += 1;
        }
        proof {
            assert(factors@.take(factors@.len() as int) == factors@);
        }
        let ghost (a, d) = (most_a as int, most_d as int);
        let mut channels: Vec<ChannelShape> = Vec::new();
        let mut i: usize = 0;
        while i < blocks.len()
            invariant
                blocks@.len() == factors@.len(),
                2 <= blocks@.len(),
                a == most_a,
                d == most_d,
                a == most_across(factors@),
                d == most_down(factors@),
                1 <= most_a,
                1 <= most_d,
                most_a == 1 || size.1 + 8 * most_a <= usize::MAX,
                most_d == 1 || size.0 + 8 * most_d <= usize::MAX,
                forall|i: int|
                    0 <= i < factors@.len() ==> size.0 + 8 * (#[trigger] factors@[i]).1 <= usize::MAX
                        && size.1 + 8 * factors@[i].0 <= usize::MAX,
                forall|k: int|
                    0 <= k < factors@.len() ==> (#[trigger] factors@[k]).0 <= most_a && factors@[k].1 <= most_d,
                i <= blocks@.len(),
                channels@.len() == i,
                forall|k: int| 0 <= k < i ==> #[trigger] component_taken(blocks@, factors@, size, k),
                forall|k: int|
                    0 <= k < i ==> {
                        let channel = #[trigger] channels@[k];
                        &&& channel.rows == blocks@[k].0
                        &&& channel.columns == blocks@[k].1
                        &&& channel.ratio.0 == ratio_of(factors@[k], a, d).0
                        &&& channel.ratio.1 == ratio_of(factors@[k], a, d).1
                    },
            decreases blocks@.len() - i,
        {
            let (across, down) = factors[i];
            if across < 1 || down < 1 || most_a % across != 0 || most_d % down != 0 {
                let mut message = text("the sampling factors ");
                add_number(&mut message, across as u64);
                add_text(&mut message, " x ");
                add_number(&mut message, down as u64);
                add_text(&mut message, " do not divide ");
                add_number(&mut message, most_a as u64);
                add_text(&mut message, " x ");
                add_number(&mut message, most_d as u64);
                add_text(&mut message, ": only whole cells are taken");
                assert(!component_taken(blocks@, factors@, size, i as int));
                return Err(Error::Unsupported(message));
            }
            proof {
                assert(factors@[i as int].1 <= most_d);
                lemma_fundamental_div_mod(most_d as int, down as int);
                lemma_fundamental_div_mod(most_a as int, across as int);
                assert(1 <= most_d / down) by (nonlinear_arith)
                    requires
                        most_d == down * (most_d / down) + 0,
                        down <= most_d,
                        1 <= down,
                ;
                assert(most_d / down <= most_d) by (nonlinear_arith)
                    requires
                        most_d == down * (most_d / down) + 0,
                        1 <= down,
                        1 <= most_d / down,
                ;
                assert(1 <= most_a / across) by (nonlinear_arith)
                    requires
                        most_a == across * (most_a / across) + 0,
                        across <= most_a,
                        1 <= across,
                ;
                assert(most_a / across <= most_a) by (nonlinear_arith)
                    requires
                        most_a == across * (most_a / across) + 0,
                        1 <= across,
                        1 <= most_a / across,
                ;
                assert(size.0 + 8 * down <= usize::MAX);
            }
            let ratio = (most_d / down, most_a / across);
            let expected = (blocks_of(size.0, ratio.0), blocks_of(size.1, ratio.1));
            if blocks[i].0 != expected.0 || blocks[i].1 != expected.1 {
                let mut message = text("a component of ");
                add_number(&mut message, blocks[i].0 as u64);
                add_text(&mut message, " x ");
                add_number(&mut message, blocks[i].1 as u64);
                add_text(&mut message, " blocks, where a picture of ");
                add_number(&mut message, size.0 as u64);
                add_text(&mut message, " x ");
                add_number(&mut message, size.1 as u64);
                add_text(&mut message, " has ");
                add_number(&mut message, expected.0 as u64);
                add_text(&mut message, " x ");
                add_number(&mut message, expected.1 as u64);
                assert(!component_taken(blocks@, factors@, size, i as int));
                return Err(Error::Unsupported(message));
            }
            channels.push(ChannelShape { rows: blocks[i].0, columns: blocks[i].1, ratio });
            i += 1;
        }
        proof {
            assert(component_taken(blocks@, factors@, size, 0));
            assert(size.0 + 8 * factors@[0].1 <= usize::MAX);
            assert(size.0 + 8 * most_d <= usize::MAX);
            assert(size.1 + 8 * most_a <= usize::MAX);
        }
        let rows = blocks_of(size.0, most_d);
        let columns = blocks_of(size.1, most_a);
        proof {
            lemma_blocks_over(size.0 as int, d, 0);
            lemma_blocks_over(size.1 as int, a, 0);
            assert forall|k: int| 0 <= k < channels@.len() implies extent_fits(#[trigger] channels@[k])
                && cells_tile(channels@[k], canvas_over(size.0 as int, d), canvas_over(size.1 as int, a))
                && blocks_within(channels@[k], canvas_over(size.0 as int, d), canvas_over(size.1 as int, a)) by {
                assert(component_taken(blocks@, factors@, size, k));
                let channel = channels@[k];
                lemma_channel_on_canvas(size.0 as int, d, factors@[k].1 as int, channel.rows as int);
                lemma_channel_on_canvas(size.1 as int, a, factors@[k].0 as int, channel.columns as int);
            }
        }
        let height = BLOCK * most_d * rows;
        let width = BLOCK * most_a * columns;
        FrameShape::new(channels, height, width)
    }
}

} // verus!
