//! JPEG files for tests, written by libjpeg's own encoder from coefficients that a
//! test chooses (`test_jpeg` of the tests' support in C): what such a file is, as the
//! C support takes it, and the checks made before it is written. The calls into the
//! C support are made by the program around this library.
use vstd::prelude::*;

use crate::error::{add_number, add_text, decimal, text};
use crate::jpegio::{GRAYSCALE, RGB, YCBCR};

verus! {

/// How the components of a test file are laid out.
#[derive(Debug, Clone, Copy)]
pub enum Layout {
    /// One component.
    Grayscale,
    /// Y, Cb and Cr with the sampling factors (h, v) of each.
    YCbCr([(i32, i32); 3]),
    /// R, G and B, stored without a transform, each with the factors (1, 1).
    Rgb,
}

/// A test file to write: its size, its layout, the quantization table of each
/// component (natural order, 1 to 32767), and how it is coded.
#[derive(Debug, Clone)]
pub struct File {
    /// Samples across.
    pub width: u32,
    /// Rows.
    pub height: u32,
    /// The components and their sampling factors.
    pub layout: Layout,
    /// One table for each component, in natural order.
    pub quant_tables: Vec<[u16; 64]>,
    /// Whether the file is progressive.
    pub progressive: bool,
    /// Whether it is arithmetic-coded.
    pub arithmetic: bool,
}

/// `test_jpeg` of the tests' support in C, without its pointers (the coefficients,
/// the ICC profile and APP1, all of them absent here), which the call takes
/// alongside.
#[derive(Debug, Clone, Copy)]
pub struct TestJpeg {
    /// Samples across.
    pub width: u32,
    /// Rows.
    pub height: u32,
    /// `GRAYSCALE`, `YCBCR` or `RGB`.
    pub color_space: i32,
    /// The horizontal sampling factor of each component; 0 for libjpeg's default.
    pub h_samp_factor: [i32; 4],
    /// The vertical sampling factor of each component; 0 for libjpeg's default.
    pub v_samp_factor: [i32; 4],
    /// The table slot of each component.
    pub quant_table_slot: [i32; 4],
    /// The quantization table of each slot, in natural order.
    pub quant_tables: [[u16; 64]; 4],
    /// 0 for 8 bits.
    pub data_precision: i32,
    /// 1 for a progressive file.
    pub progressive: i32,
    /// 0 for libjpeg's scans.
    pub sequential_scans: i32,
    /// 1 for arithmetic coding.
    pub arithmetic: i32,
    /// 0: libjpeg's Huffman tables.
    pub optimize_coding: i32,
    /// 0: no restart markers.
    pub restart_interval: i32,
}

/// The components of a layout.
pub open spec fn components_of(layout: Layout) -> int {
    match layout {
        Layout::Grayscale => 1,
        _ => 3,
    }
}

/// The color space code of a layout.
pub open spec fn color_space_of(layout: Layout) -> i32 {
    match layout {
        Layout::Grayscale => GRAYSCALE,
        Layout::YCbCr(_) => YCBCR,
        Layout::Rgb => RGB,
    }
}

/// The sampling factors of a layout, `(h, v)` for each of four components; 0 for
/// libjpeg's default.
pub open spec fn factors_of(layout: Layout, index: int) -> (i32, i32) {
    match layout {
        Layout::YCbCr(factors) => if 0 <= index < 3 {
            factors@[index]
        } else {
            (0, 0)
        },
        _ => (0, 0),
    }
}

/// Why a file's tables are not one for each component.
pub open spec fn table_refusal(components: int, tables: int) -> Seq<char> {
    "a quantization table for each of the "@ + decimal(components as nat) + " components, not "@
        + decimal(tables as nat)
}

impl File {
    /// The file as the tests' support in C takes it.
    ///
    /// # Errors
    ///
    /// A description of what the file cannot be: not one table for each component.
    pub fn test_jpeg(&self) -> (result: Result<TestJpeg, String>)
        ensures
            match result {
                Ok(jpeg) => {
                    &&& self.quant_tables@.len() == components_of(self.layout)
                    &&& jpeg.width == self.width
                    &&& jpeg.height == self.height
                    &&& jpeg.color_space == color_space_of(self.layout)
                    &&& forall|i: int|
                        0 <= i < 4 ==> (#[trigger] jpeg.h_samp_factor@[i], jpeg.v_samp_factor@[i])
                            == factors_of(self.layout, i)
                    &&& jpeg.quant_table_slot@ == seq![0i32, 1, 2, 0]
                    &&& forall|i: int|
                        0 <= i < 4 ==> (#[trigger] jpeg.quant_tables@[i])@ == if i
                            < self.quant_tables@.len() {
                            self.quant_tables@[i]@
                        } else {
                            Seq::new(64, |j: int| 0u16)
                        }
                    &&& jpeg.data_precision == 0
                    &&& jpeg.progressive == (if self.progressive { 1i32 } else { 0 })
                    &&& jpeg.sequential_scans == 0
                    &&& jpeg.arithmetic == (if self.arithmetic { 1i32 } else { 0 })
                    &&& jpeg.optimize_coding == 0
                    &&& jpeg.restart_interval == 0
                },
                Err(message) => {
                    &&& self.quant_tables@.len() != components_of(self.layout)
                    &&& message@ == table_refusal(
                        components_of(self.layout),
                        self.quant_tables@.len() as int,
                    )
                },
            },
    {
        let components: usize = match self.layout {
            Layout::Grayscale => 1,
            _ => 3,
        };
        if self.quant_tables.len() != components {
            let mut message = text("a quantization table for each of the ");
            add_number(&mut message, components as u64);
            add_text(&mut message, " components, not ");
            add_number(&mut message, self.quant_tables.len() as u64);
            return Err(message);
        }
        let color_space = match self.layout {
            Layout::Grayscale => GRAYSCALE,
            Layout::YCbCr(_) => YCBCR,
            Layout::Rgb => RGB,
        };
        let (h_samp_factor, v_samp_factor) = match self.layout {
            Layout::YCbCr(factors) => (
                [factors[0].0, factors[1].0, factors[2].0, 0],
                [factors[0].1, factors[1].1, factors[2].1, 0],
            ),
            _ => ([0i32, 0, 0, 0], [0i32, 0, 0, 0]),
        };
        let blank: [u16; 64] = [0u16; 64];
        let first = self.quant_tables[0];
        let second = if components == 3 {
            self.quant_tables[1]
        } else {
            blank
        };
        let third = if components == 3 {
            self.quant_tables[2]
        } else {
            blank
        };
        let jpeg = TestJpeg {
            width: self.width,
            height: self.height,
            color_space,
            h_samp_factor,
            v_samp_factor,
            quant_table_slot: [0, 1, 2, 0],
            quant_tables: [first, second, third, blank],
            data_precision: 0,
            progressive: if self.progressive { 1 } else { 0 },
            sequential_scans: 0,
            arithmetic: if self.arithmetic { 1 } else { 0 },
            optimize_coding: 0,
            restart_interval: 0,
        };
        proof {
            assert(blank@ == Seq::new(64, |j: int| 0u16));
            assert(jpeg.quant_table_slot@ == seq![0i32, 1, 2, 0]);
        }
        Ok(jpeg)
    }
}

/// Why a component's coefficients are not as many as its blocks.
pub open spec fn count_refusal(index: int, across: int, down: int, count: int) -> Seq<char> {
    "component "@ + decimal(index as nat) + " has "@ + decimal(across as nat) + " x "@ + decimal(
        down as nat,
    ) + " blocks of 64 coefficients, not "@ + decimal(count as nat)
}

/// Why the coefficients are not one list for each component.
pub open spec fn list_refusal(components: int, lists: int) -> Seq<char> {
    "coefficients for each of the "@ + decimal(components as nat) + " components, not "@ + decimal(
        lists as nat,
    )
}

/// Whether coefficients fit the blocks of a file: one list for each component, of
/// `across * down` blocks of 64.
pub open spec fn coefficients_fit(blocks: Seq<(usize, usize)>, coefficients: Seq<Vec<i16>>) -> bool {
    &&& coefficients.len() == blocks.len()
    &&& forall|i: int|
        0 <= i < blocks.len() ==> (#[trigger] coefficients[i])@.len() == blocks[i].0 * blocks[i].1 * 64
}

/// The first component whose coefficients are not as many as its blocks.
pub open spec fn first_misfit(blocks: Seq<(usize, usize)>, coefficients: Seq<Vec<i16>>) -> int {
    choose|i: int|
        {
            &&& 0 <= i < blocks.len()
            &&& (#[trigger] coefficients[i])@.len() != blocks[i].0 * blocks[i].1 * 64
            &&& forall|k: int|
                0 <= k < i ==> (#[trigger] coefficients[k])@.len() == blocks[k].0 * blocks[k].1 * 64
        }
}

/// Why coefficients do not fit the blocks of a file.
pub open spec fn misfit_message(blocks: Seq<(usize, usize)>, coefficients: Seq<Vec<i16>>) -> Seq<char> {
    if coefficients.len() != blocks.len() {
        list_refusal(blocks.len() as int, coefficients.len() as int)
    } else {
        let i = first_misfit(blocks, coefficients);
        count_refusal(i, blocks[i].0 as int, blocks[i].1 as int, coefficients[i]@.len() as int)
    }
}

/// Whether the coefficients of a file's components are as many as its blocks, which
/// [`File::test_jpeg`] and the C support count, `(across, down)` for each: what is
/// checked before the file is written.
///
/// # Errors
///
/// A description of the first list that does not fit.
pub fn check_coefficients(blocks: &[(usize, usize)], coefficients: &[Vec<i16>]) -> (result: Result<(), String>)
    ensures
        match result {
            Ok(()) => coefficients_fit(blocks@, coefficients@),
            Err(message) => {
                &&& !coefficients_fit(blocks@, coefficients@)
                &&& message@ == misfit_message(blocks@, coefficients@)
            },
        },
{
    if coefficients.len() != blocks.len() {
        let mut message = text("coefficients for each of the ");
        add_number(&mut message, blocks.len() as u64);
        add_text(&mut message, " components, not ");
        add_number(&mut message, coefficients.len() as u64);
        return Err(message);
    }
    let mut index: usize = 0;
    while index < blocks.len()
        invariant
            coefficients@.len() == blocks@.len(),
            index <= blocks@.len(),
            forall|k: int|
                0 <= k < index ==> (#[trigger] coefficients@[k])@.len() == blocks@[k].0 * blocks@[k].1
                    * 64,
        decreases blocks@.len() - index,
    {
        let (across, down) = blocks[index];
        let count = coefficients[index].len();
        let fits = match across.checked_mul(down) {
            Some(blocks) => match blocks.checked_mul(64) {
                Some(expected) => count == expected,
                None => false,
            },
            None => {
                proof {
                    assert(across * down * 64 >= across * down) by (nonlinear_arith)
                        requires
                            across * down >= 0,
                    ;
                }
                false
            },
        };
        if !fits {
            let mut message = text("component ");
            add_number(&mut message, index as u64);
            add_text(&mut message, " has ");
            add_number(&mut message, across as u64);
            add_text(&mut message, " x ");
            add_number(&mut message, down as u64);
            add_text(&mut message, " blocks of 64 coefficients, not ");
            add_number(&mut message, count as u64);
            return Err(message);
        }
        index += 1;
    }
    Ok(())
}

} // verus!
