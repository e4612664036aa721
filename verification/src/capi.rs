//! What the C interface decides: the status of each error, the message written into a
//! caller's buffer, the sizes it passes on, and the components a caller gives as
//! arrays, checked and taken. The calls across the interface, and the pointers, are
//! the program's around this library.
use vstd::prelude::*;
use vstd::string::StringSliceAdditionalSpecFns;
use vstd::utf8::{encode_utf8_valid_utf8, is_char_boundary};

use crate::decode::{Component, Input};
use crate::error::{add_signed, signed_decimal, text, Error};
use crate::jpegio::{color_space_of_code, ColorSpace};

verus! {

/// The version of this interface: `UNROUND_ABI_VERSION` of the header it matches.
pub const ABI_VERSION: i32 = 1;

/// Success.
pub const OK: i32 = 0;
/// An argument the interface cannot take: a null pointer where one is needed, or a
/// size that does not fit.
pub const ERROR_ARGUMENT: i32 = 1;
/// A file that the C layer could not read, or would not.
pub const ERROR_READ: i32 = 2;
/// A file whose layout is not taken.
pub const ERROR_UNSUPPORTED: i32 = 3;
/// Options, or arrays, out of their ranges.
pub const ERROR_OPTIONS: i32 = 4;
/// A file that could not be written or read.
pub const ERROR_IO: i32 = 5;
/// An error of the library itself: a panic, caught.
pub const ERROR_INTERNAL: i32 = 6;

/// The version of this interface.
pub fn abi_version() -> (version: i32)
    ensures
        version == ABI_VERSION,
{
    ABI_VERSION
}

/// The status of an error.
pub open spec fn error_status(error: Error) -> i32 {
    match error {
        Error::Read(_) => ERROR_READ,
        Error::Unsupported(_) => ERROR_UNSUPPORTED,
        Error::Options(_) => ERROR_OPTIONS,
        Error::Io(_) => ERROR_IO,
        Error::Write(_) => ERROR_IO,
    }
}

/// The status that the interface returns for an error.
pub fn status_of(error: &Error) -> (status: i32)
    ensures
        status == error_status(*error),
{
    match error {
        Error::Read(_) => ERROR_READ,
        Error::Unsupported(_) => ERROR_UNSUPPORTED,
        Error::Options(_) => ERROR_OPTIONS,
        Error::Io(_) | Error::Write(_) => ERROR_IO,
    }
}

/// An argument refused: [`ERROR_ARGUMENT`], with why.
pub fn refuse(words: &str) -> (refusal: (i32, String))
    ensures
        refusal.0 == ERROR_ARGUMENT,
        refusal.1@ == words@,
{
    (ERROR_ARGUMENT, text(words))
}

/// A size as the interface hands it over.
pub fn wide(value: usize) -> (wide: u64)
    ensures
        wide == value,
{
    value as u64
}

/// A size that the interface is given, where it fits a `usize`.
///
/// # Errors
///
/// [`ERROR_ARGUMENT`] for one that does not.
pub fn narrow(value: u64) -> (result: Result<usize, (i32, String)>)
    ensures
        match result {
            Ok(size) => value <= usize::MAX && size == value,
            Err((status, message)) => value > usize::MAX && status == ERROR_ARGUMENT && message@
                == "a size that does not fit"@,
        },
{
    if value > usize::MAX as u64 {
        return Err(refuse("a size that does not fit"));
    }
    Ok(value as usize)
}

/// A count that the interface is given.
pub fn usize_of(value: u32) -> (size: usize)
    ensures
        size == value,
{
    value as usize
}

/// The bytes of a message in a buffer of `size` bytes: the text's, cut at the last
/// character's boundary that leaves room for the NUL, and the NUL.
pub fn message_bytes(text: &str, size: usize) -> (bytes: Vec<u8>)
    requires
        0 < size,
    ensures
        ({
            let all = text.spec_bytes();
            let most = if all.len() < size - 1 {
                all.len() as int
            } else {
                size - 1
            };
            exists|end: int|
                {
                    &&& 0 <= end <= most
                    &&& is_char_boundary(all, end)
                    &&& forall|k: int| end < k <= most ==> !is_char_boundary(all, k)
                    &&& bytes@ == all.subrange(0, end).push(0u8)
                }
        }),
{
    let all = text.as_bytes();
    let ghost whole = text.spec_bytes();
    proof {
        encode_utf8_valid_utf8(text@);
        assert(is_char_boundary(whole, 0));
    }
    let len = all.len();
    let most = if len < size - 1 {
        len
    } else {
        size - 1
    };
    let mut end = most;
    while !text.is_char_boundary(end)
        invariant
            whole == text.spec_bytes(),
            all@ == whole,
            is_char_boundary(whole, 0),
            end <= most,
            most <= len,
            len == whole.len(),
            forall|k: int| end < k <= most ==> !is_char_boundary(whole, k),
        decreases end,
    {
        end -= 1;
    }
    let mut bytes: Vec<u8> = Vec::new();
    let mut i: usize = 0;
    while i < end
        invariant
            all@ == whole,
            end <= len,
            len == whole.len(),
            i <= end,
            bytes@ == whole.subrange(0, i as int),
        decreases end - i,
    {
        bytes.push(all[i]);
        i += 1;
    }
    bytes.push(0u8);
    bytes
}

/// Whether the pixels of a picture, its channels and its samples are counted in a
/// `usize`, pixels first.
pub open spec fn picture_fits(height: int, width: int, channels: int) -> bool {
    &&& height * width <= usize::MAX
    &&& channels <= usize::MAX
    &&& height * width * channels <= usize::MAX
}

/// The samples of a picture of `height x width x channels` that the interface is
/// given, where their count fits a `usize`.
///
/// # Errors
///
/// [`ERROR_ARGUMENT`] for a side that does not fit a `usize`, or a count that does
/// not: the first of them.
pub fn picture_count(height: u64, width: u64, channels: u64) -> (result: Result<usize, (i32, String)>)
    ensures
        match result {
            Ok(count) => {
                &&& height <= usize::MAX
                &&& width <= usize::MAX
                &&& picture_fits(height as int, width as int, channels as int)
                &&& count == height * width * channels
            },
            Err((status, message)) => {
                &&& status == ERROR_ARGUMENT
                &&& if height > usize::MAX || width > usize::MAX {
                    message@ == "a size that does not fit"@
                } else {
                    &&& !picture_fits(height as int, width as int, channels as int)
                    &&& message@ == "a picture too large"@
                }
            },
        },
{
    let rows = match narrow(height) {
        Ok(rows) => rows,
        Err(refusal) => return Err(refusal),
    };
    let columns = match narrow(width) {
        Ok(columns) => columns,
        Err(refusal) => return Err(refusal),
    };
    let count = match rows.checked_mul(columns) {
        Some(pixels) => if channels <= usize::MAX as u64 {
            pixels.checked_mul(channels as usize)
        } else {
            None
        },
        None => None,
    };
    match count {
        Some(count) => Ok(count),
        None => Err(refuse("a picture too large")),
    }
}

/// Why a level of zlib's is refused.
pub open spec fn level_refusal(level: i32) -> Seq<char> {
    "zlib's level is 0 to 9, or -1, not "@ + signed_decimal(level as int)
}

/// zlib's level that the interface is given: 0 to 9, or -1 for zlib's default.
///
/// # Errors
///
/// [`ERROR_OPTIONS`] for any other.
pub fn png_level(compression: i32) -> (result: Result<Option<u8>, (i32, String)>)
    ensures
        match result {
            Ok(None) => compression == -1,
            Ok(Some(level)) => 0 <= compression <= 9 && level == compression,
            Err((status, message)) => {
                &&& !(-1 <= compression <= 9)
                &&& status == ERROR_OPTIONS
                &&& message@ == level_refusal(compression)
            },
        },
{
    if compression == -1 {
        Ok(None)
    } else if 0 <= compression && compression <= 9 {
        Ok(Some(compression as u8))
    } else {
        let mut message = text("zlib's level is 0 to 9, or -1, not ");
        add_signed(&mut message, compression as i64);
        Err((ERROR_OPTIONS, message))
    }
}

/// A component given as arrays: `rows x columns` blocks of 64 levels in natural
/// order, block rows from the top, its sampling factors and its quantization table;
/// its levels copied, `None` where the caller gave a null pointer.
#[derive(Debug, Clone)]
pub struct UnroundComponent {
    /// The levels.
    pub levels: Option<Vec<i16>>,
    /// Block rows.
    pub rows: u32,
    /// Blocks across.
    pub columns: u32,
    /// The horizontal sampling factor.
    pub h_samp_factor: i32,
    /// The vertical sampling factor.
    pub v_samp_factor: i32,
    /// The quantization table, in natural order.
    pub quant_table: [u16; 64],
}

/// Components given as arrays: the picture's rows and columns, its color space (1
/// greyscale, 2 YCbCr, 3 RGB, as the C layer says it), and the components, `None`
/// where the caller gave a null pointer.
#[derive(Debug, Clone)]
pub struct UnroundInput {
    /// Rows of the picture.
    pub height: u32,
    /// Columns of the picture.
    pub width: u32,
    /// The color space.
    pub color_space: i32,
    /// The components.
    pub components: Option<Vec<UnroundComponent>>,
}

/// The levels of a component of `rows x columns` blocks, where their count fits a
/// `usize`: what the interface copies of a component's array.
pub fn levels_count(rows: u32, columns: u32) -> (count: Option<usize>)
    ensures
        match count {
            Some(count) => count == rows * columns * 64,
            None => rows * columns * 64 > usize::MAX,
        },
{
    match usize_of(rows).checked_mul(usize_of(columns)) {
        Some(blocks) => blocks.checked_mul(64),
        None => {
            proof {
                assert(rows * columns * 64 >= rows * columns) by (nonlinear_arith)
                    requires
                        rows * columns >= 0,
                ;
            }
            None
        },
    }
}

/// Whether a component given as arrays is taken: a count of levels that fits a
/// `usize`, the levels there, as many as its blocks, and sampling factors of at least
/// 0.
pub open spec fn component_taken(given: UnroundComponent) -> bool {
    &&& given.rows * given.columns * 64 <= usize::MAX
    &&& given.levels matches Some(levels)
    &&& levels@.len() == given.rows * given.columns * 64
    &&& given.h_samp_factor >= 0
    &&& given.v_samp_factor >= 0
}

/// Why a component given as arrays is refused.
pub open spec fn component_refusal(given: UnroundComponent) -> Seq<char> {
    if given.rows * given.columns * 64 > usize::MAX {
        "a component too large"@
    } else if given.levels is None {
        "a component's levels are a null pointer"@
    } else if given.levels->0@.len() != given.rows * given.columns * 64 {
        "a component's levels are not of its blocks"@
    } else {
        "a sampling factor below 0"@
    }
}

/// The input of components given as arrays.
///
/// # Errors
///
/// [`ERROR_ARGUMENT`] for a color space that is not 1, 2 or 3, no components, and the
/// first component that is not taken.
pub fn input_of(given: &UnroundInput) -> (result: Result<Input, (i32, String)>)
    ensures
        match result {
            Ok(input) => {
                &&& color_space_of_code(given.color_space) matches Some(space)
                &&& input.color_space == space
                &&& given.components matches Some(components)
                &&& components@.len() > 0
                &&& forall|i: int| 0 <= i < components@.len() ==> component_taken(#[trigger] components@[i])
                &&& input.components@.len() == components@.len()
                &&& forall|i: int|
                    0 <= i < components@.len() ==> {
                        let taken = #[trigger] input.components@[i];
                        let source = components@[i];
                        &&& taken.levels@ == source.levels->0@
                        &&& taken.rows == source.rows
                        &&& taken.columns == source.columns
                        &&& taken.quant_table == source.quant_table
                        &&& taken.h_samp_factor == source.h_samp_factor
                        &&& taken.v_samp_factor == source.v_samp_factor
                    }
                &&& input.height == given.height
                &&& input.width == given.width
                &&& input.icc_profile is None
                &&& input.exif_orientation == 0
            },
            Err((status, message)) => {
                &&& status == ERROR_ARGUMENT
                &&& if color_space_of_code(given.color_space) is None {
                    message@ == "a color space of 1, 2 or 3, not "@ + signed_decimal(given.color_space as int)
                } else if given.components is None || given.components->0@.len() == 0 {
                    message@ == "components are given"@
                } else {
                    let components = given.components->0@;
                    exists|i: int|
                        {
                            &&& 0 <= i < components.len()
                            &&& !component_taken(#[trigger] components[i])
                            &&& forall|k: int| 0 <= k < i ==> component_taken(#[trigger] components[k])
                            &&& message@ == component_refusal(components[i])
                        }
                }
            },
        },
{
    let color_space = match ColorSpace::from_code(given.color_space) {
        Some(space) => space,
        None => {
            let mut message = text("a color space of 1, 2 or 3, not ");
            add_signed(&mut message, given.color_space as i64);
            return Err((ERROR_ARGUMENT, message));
        },
    };
    let components = match &given.components {
        Some(components) => if components.len() == 0 {
            return Err(refuse("components are given"));
        } else {
            components
        },
        None => return Err(refuse("components are given")),
    };
    let mut copied: Vec<Component> = Vec::new();
    let mut i: usize = 0;
    while i < components.len()
        invariant
            given.components == Some(*components),
            color_space_of_code(given.color_space) is Some,
            components@.len() > 0,
            i <= components@.len(),
            copied@.len() == i,
            forall|k: int| 0 <= k < i ==> component_taken(#[trigger] components@[k]),
            forall|k: int|
                0 <= k < i ==> {
                    let taken = #[trigger] copied@[k];
                    let source = components@[k];
                    &&& taken.levels@ == source.levels->0@
                    &&& taken.rows == source.rows
                    &&& taken.columns == source.columns
                    &&& taken.quant_table == source.quant_table
                    &&& taken.h_samp_factor == source.h_samp_factor
                    &&& taken.v_samp_factor == source.v_samp_factor
                },
        decreases components@.len() - i,
    {
        let component = &components[i];
        let count = match levels_count(component.rows, component.columns) {
            Some(count) => count,
            None => {
                assert(!component_taken(components@[i as int]));
                return Err(refuse("a component too large"));
            },
        };
        let levels = match &component.levels {
            Some(levels) => if levels.len() == count {
                levels.clone()
            } else {
                assert(!component_taken(components@[i as int]));
                return Err(refuse("a component's levels are not of its blocks"));
            },
            None => {
                assert(!component_taken(components@[i as int]));
                return Err(refuse("a component's levels are a null pointer"));
            },
        };
        if component.h_samp_factor < 0 || component.v_samp_factor < 0 {
            assert(!component_taken(components@[i as int]));
            return Err(refuse("a sampling factor below 0"));
        }
        copied.push(
            Component {
                levels,
                rows: usize_of(component.rows),
                columns: usize_of(component.columns),
                quant_table: component.quant_table,
                h_samp_factor: component.h_samp_factor as usize,
                v_samp_factor: component.v_samp_factor as usize,
            },
        );
        i += 1;
    }
    Ok(
        Input {
            height: usize_of(given.height),
            width: usize_of(given.width),
            color_space,
            components: copied,
            icc_profile: None,
            exif_orientation: 0,
        },
    )
}

} // verus!
