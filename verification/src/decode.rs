//! What a reconstruction starts from: a file's components as the C layer read them,
//! the method, and which options of the data term go with which component.
use vstd::prelude::*;

use crate::error::{add_number, add_signed, add_text, decimal, signed_decimal, text, Error};
use crate::jpegio::{ColorSpace, Image};

verus! {

/// How a file is reconstructed.
#[derive(Debug, Clone, Copy, PartialEq, Eq, Structural, Hash)]
pub enum Method {
    /// The decoder of the data term's centres.
    Mmse,
    /// TV by the primal-dual method.
    Tv,
    /// TGV by the primal-dual method.
    Tgv,
    /// TV by the subgradient method, for greyscale files.
    Subgradient,
}

impl Default for Method {
    /// TGV.
    fn default() -> (method: Method)
        ensures
            method == Method::Tgv,
    {
        Method::Tgv
    }
}

/// A component of a file: its quantized levels, `rows x columns` blocks of 64 in
/// natural order, its quantization table, and its sampling factors, across and down.
#[derive(Debug, Clone)]
pub struct Component {
    /// The levels, block rows from the top, each block in natural order.
    pub levels: Vec<i16>,
    /// Block rows.
    pub rows: usize,
    /// Blocks across.
    pub columns: usize,
    /// The quantization table, in natural order.
    pub quant_table: [u16; 64],
    /// The horizontal sampling factor.
    pub h_samp_factor: usize,
    /// The vertical sampling factor.
    pub v_samp_factor: usize,
}

/// What a reconstruction starts from: the picture's size, its color space, and its
/// components, as a file holds them or as they are given; and the file's ICC profile
/// and EXIF orientation, which the reconstruction carries along.
#[derive(Debug, Clone)]
pub struct Input {
    /// Rows of the picture.
    pub height: usize,
    /// Columns of the picture.
    pub width: usize,
    /// The color space of the components.
    pub color_space: ColorSpace,
    /// The components: one, or three.
    pub components: Vec<Component>,
    /// The ICC profile, where there is one.
    pub icc_profile: Option<Vec<u8>>,
    /// The EXIF orientation, 1 to 8, or 0 where there is none.
    pub exif_orientation: i32,
}

/// Why a sampling factor is not taken.
pub open spec fn factor_refusal(value: i32) -> Seq<char> {
    "a sampling factor of "@ + signed_decimal(value as int)
}

/// A sampling factor of the C layer, which is at least 0.
///
/// # Errors
///
/// [`Error::Unsupported`] for a negative one.
pub fn factor(value: i32) -> (result: Result<usize, Error>)
    ensures
        match result {
            Ok(factor) => value >= 0 && factor == value,
            Err(error) => {
                &&& value < 0
                &&& error matches Error::Unsupported(message)
                &&& message@ == factor_refusal(value)
            },
        },
{
    if value < 0 {
        let mut message = text("a sampling factor of ");
        add_signed(&mut message, value as i64);
        return Err(Error::Unsupported(message));
    }
    Ok(value as usize)
}

/// A count of blocks of the C layer.
pub fn blocks(value: u32) -> (count: usize)
    ensures
        count == value,
{
    value as usize
}

/// Whether a component of an image has sampling factors of at least 0.
pub open spec fn factors_taken(component: crate::jpegio::ComponentView) -> bool {
    component.h_samp_factor >= 0 && component.v_samp_factor >= 0
}

/// The component of a reconstruction that a component of an image is.
pub open spec fn component_from(component: Component, image: crate::jpegio::ComponentView) -> bool {
    &&& component.levels@ == image.coefficients
    &&& component.rows == image.height_in_blocks
    &&& component.columns == image.width_in_blocks
    &&& component.quant_table@ == image.quant_table
    &&& component.h_samp_factor == image.h_samp_factor
    &&& component.v_samp_factor == image.v_samp_factor
}

impl Input {
    /// The input of an image that the C layer read.
    ///
    /// # Errors
    ///
    /// [`Error::Unsupported`] for the first sampling factor that is negative.
    pub fn of_image(image: &Image) -> (result: Result<Input, Error>)
        ensures
            match result {
                Ok(input) => {
                    &&& forall|i: int|
                        0 <= i < image@.components.len() ==> factors_taken(
                            (#[trigger] image@.components[i])@,
                        )
                    &&& input.height == image@.height
                    &&& input.width == image@.width
                    &&& input.color_space == image@.color_space
                    &&& input.components@.len() == image@.components.len()
                    &&& forall|i: int|
                        0 <= i < image@.components.len() ==> component_from(
                            #[trigger] input.components@[i],
                            image@.components[i]@,
                        )
                    &&& match input.icc_profile {
                        Some(profile) => image@.icc_profile == Some(profile@),
                        None => image@.icc_profile is None,
                    }
                    &&& input.exif_orientation == image@.exif_orientation
                },
                Err(error) => exists|i: int|
                    {
                        &&& 0 <= i < image@.components.len()
                        &&& !factors_taken((#[trigger] image@.components[i])@)
                        &&& forall|k: int| 0 <= k < i ==> factors_taken((#[trigger] image@.components[k])@)
                        &&& error matches Error::Unsupported(message)
                        &&& message@ == factor_refusal(
                            if image@.components[i]@.h_samp_factor < 0 {
                                image@.components[i]@.h_samp_factor
                            } else {
                                image@.components[i]@.v_samp_factor
                            },
                        )
                    },
            },
    {
        let source = image.components();
        let mut components: Vec<Component> = Vec::new();
        let mut i: usize = 0;
        while i < source.len()
            invariant
                source@ == image@.components,
                i <= source@.len(),
                components@.len() == i,
                forall|k: int| 0 <= k < i ==> factors_taken((#[trigger] source@[k])@),
                forall|k: int|
                    0 <= k < i ==> component_from(#[trigger] components@[k], source@[k]@),
            decreases source@.len() - i,
        {
            let component = &source[i];
            let h_samp_factor = match factor(component.h_samp_factor()) {
                Ok(value) => value,
                Err(error) => return Err(error),
            };
            let v_samp_factor = match factor(component.v_samp_factor()) {
                Ok(value) => value,
                Err(error) => return Err(error),
            };
            let mut levels: Vec<i16> = Vec::new();
            let coefficients = component.coefficients();
            let mut j: usize = 0;
            while j < coefficients.len()
                invariant
                    j <= coefficients@.len(),
                    levels@ == coefficients@.subrange(0, j as int),
                decreases coefficients@.len() - j,
            {
                levels.push(coefficients[j]);
                j += 1;
            }
            assert(levels@ == coefficients@);
            components.push(
                Component {
                    levels,
                    rows: blocks(component.height_in_blocks()),
                    columns: blocks(component.width_in_blocks()),
                    quant_table: *component.quant_table(),
                    h_samp_factor,
                    v_samp_factor,
                },
            );
            i += 1;
        }
        let icc_profile = match image.icc_profile() {
            Some(profile) => {
                let mut copy: Vec<u8> = Vec::new();
                let mut j: usize = 0;
                while j < profile.len()
                    invariant
                        j <= profile@.len(),
                        copy@ == profile@.subrange(0, j as int),
                    decreases profile@.len() - j,
                {
                    copy.push(profile[j]);
                    j += 1;
                }
                assert(copy@ == profile@);
                Some(copy)
            },
            None => None,
        };
        Ok(
            Input {
                height: blocks(image.height()),
                width: blocks(image.width()),
                color_space: image.color_space(),
                components,
                icc_profile,
                exif_orientation: image.exif_orientation(),
            },
        )
    }
}

/// Why the options of the data term are not one, or one for each component.
pub open spec fn data_refusal(count: int, length: int) -> Seq<char> {
    "options of G for each of the "@ + decimal(count as nat) + " components, or one for all, not "@
        + decimal(length as nat)
}

/// The data term of component `index` of `count`: the one of every component, or its
/// own.
///
/// # Errors
///
/// [`Error::Options`] unless there is one, or one for each component.
pub fn data_of<T>(data: &[T], index: usize, count: usize) -> (result: Result<&T, Error>)
    requires
        index < count,
    ensures
        match result {
            Ok(term) => if data@.len() == 1 {
                *term == data@[0]
            } else {
                data@.len() == count && *term == data@[index as int]
            },
            Err(error) => {
                &&& data@.len() != 1
                &&& data@.len() != count
                &&& error matches Error::Options(message)
                &&& message@ == data_refusal(count as int, data@.len() as int)
            },
        },
{
    let length = data.len();
    if length == 1 {
        Ok(&data[0])
    } else if length == count {
        Ok(&data[index])
    } else {
        let mut message = text("options of G for each of the ");
        add_number(&mut message, count as u64);
        add_text(&mut message, " components, or one for all, not ");
        add_number(&mut message, length as u64);
        Err(Error::Options(message))
    }
}

/// The components of a file of a color space: one for greyscale, and three
/// otherwise.
pub open spec fn expected_components(color_space: ColorSpace) -> int {
    if color_space == ColorSpace::Grayscale {
        1
    } else {
        3
    }
}

/// The name of a color space, as `Debug` writes it.
pub open spec fn space_name(color_space: ColorSpace) -> Seq<char> {
    match color_space {
        ColorSpace::Grayscale => "Grayscale"@,
        ColorSpace::YCbCr => "YCbCr"@,
        ColorSpace::Rgb => "Rgb"@,
    }
}

/// Why a count of components does not go with a color space.
pub open spec fn components_refusal(color_space: ColorSpace, count: int) -> Seq<char> {
    "a file of the color space "@ + space_name(color_space) + " has "@ + decimal(
        expected_components(color_space) as nat,
    ) + " components, not "@ + decimal(count as nat)
}

/// Whether a file of a color space can have `count` components: what a frame of its
/// components asks first.
///
/// # Errors
///
/// [`Error::Unsupported`] for a color space and a count of components that do not
/// go together.
pub fn check_components(color_space: ColorSpace, count: usize) -> (result: Result<(), Error>)
    ensures
        match result {
            Ok(()) => count == expected_components(color_space),
            Err(error) => {
                &&& count != expected_components(color_space)
                &&& error matches Error::Unsupported(message)
                &&& message@ == components_refusal(color_space, count as int)
            },
        },
{
    let expected: usize = if color_space == ColorSpace::Grayscale {
        1
    } else {
        3
    };
    if count != expected {
        let mut message = text("a file of the color space ");
        let name = match color_space {
            ColorSpace::Grayscale => "Grayscale",
            ColorSpace::YCbCr => "YCbCr",
            ColorSpace::Rgb => "Rgb",
        };
        add_text(&mut message, name);
        add_text(&mut message, " has ");
        add_number(&mut message, expected as u64);
        add_text(&mut message, " components, not ");
        add_number(&mut message, count as u64);
        return Err(Error::Unsupported(message));
    }
    Ok(())
}

} // verus!
