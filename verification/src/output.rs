//! The files that hold a picture of 8 or 16 bits: the shape a picture must have, the
//! PNM file of its samples, and what a PNG file needs before the C layer writes it.
//! The samples themselves are rounded from the binary64 result by the program around
//! this library.
use vstd::prelude::*;

use crate::error::{add_number, add_text, decimal, digit, text, Error};
use crate::jpegio::{self, ErrorKind, Samples};

verus! {

/// The bytes of a file, and the first warning of its writing, or an empty string.
#[derive(Debug, Clone, Default)]
pub struct Written {
    /// The file.
    pub bytes: Vec<u8>,
    /// Such as an ICC profile that is not written, and why.
    pub warning: String,
}

/// Whether `count` samples are a picture of `height x width` pixels of 1 or 3
/// channels, not empty, counted in a `usize` pixels first.
pub open spec fn shape_fits(count: int, height: int, width: int, channels: int) -> bool {
    &&& channels == 1 || channels == 3
    &&& height * width <= usize::MAX
    &&& height * width * channels == count
    &&& height != 0
    &&& width != 0
}

/// Why samples are not a picture of their shape.
pub open spec fn shape_refusal(count: int, height: int, width: int, channels: int) -> Seq<char> {
    "a picture of "@ + decimal(height as nat) + " x "@ + decimal(width as nat)
        + " x 1 or 3 samples, not empty, and not of "@ + decimal(count as nat) + " samples in "@
        + decimal(channels as nat) + " channels"@
}

/// Whether `count` samples are a picture of `height x width` pixels of `channels`.
///
/// # Errors
///
/// [`Error::Options`] for a picture that is empty, of other than 1 or 3 channels, or
/// not of `height x width` pixels.
pub fn shape(count: usize, height: usize, width: usize, channels: usize) -> (result: Result<(), Error>)
    ensures
        match result {
            Ok(()) => shape_fits(count as int, height as int, width as int, channels as int),
            Err(error) => {
                &&& !shape_fits(count as int, height as int, width as int, channels as int)
                &&& error matches Error::Options(message)
                &&& message@ == shape_refusal(count as int, height as int, width as int, channels as int)
            },
        },
{
    let counted = match height.checked_mul(width) {
        Some(pixels) => match pixels.checked_mul(channels) {
            Some(samples) => samples == count,
            None => false,
        },
        None => false,
    };
    if !(channels == 1 || channels == 3) || !counted || height == 0 || width == 0 {
        let mut message = text("a picture of ");
        add_number(&mut message, height as u64);
        add_text(&mut message, " x ");
        add_number(&mut message, width as u64);
        add_text(&mut message, " x 1 or 3 samples, not empty, and not of ");
        add_number(&mut message, count as u64);
        add_text(&mut message, " samples in ");
        add_number(&mut message, channels as u64);
        add_text(&mut message, " channels");
        return Err(Error::Options(message));
    }
    Ok(())
}

/// `n` in decimal ASCII.
pub open spec fn ascii_decimal(n: nat) -> Seq<u8> {
    decimal(n).map_values(|c: char| c as u8)
}

/// The header of a PNM file: `P5` for gray or `P6` for RGB, the width and the
/// height, and the largest sample, each line ended by a newline.
pub open spec fn pnm_header(channels: int, width: nat, height: nat, top: nat) -> Seq<u8> {
    (if channels == 1 {
        seq![80u8, 53u8]
    } else {
        seq![80u8, 54u8]
    }) + seq![10u8] + ascii_decimal(width) + seq![32u8] + ascii_decimal(height) + seq![10u8]
        + ascii_decimal(top) + seq![10u8]
}

/// Samples of 16 bits as bytes, most significant byte first.
pub open spec fn big_endian(samples: Seq<u16>) -> Seq<u8> {
    Seq::new(
        2 * samples.len(),
        |k: int|
            if k % 2 == 0 {
                (samples[k / 2] / 256) as u8
            } else {
                (samples[k / 2] % 256) as u8
            },
    )
}

/// The samples of a PNM file: 8 bits as they are, 16 bits most significant byte
/// first.
pub open spec fn pnm_body(samples: Samples) -> Seq<u8> {
    match samples {
        Samples::Eight(samples) => samples@,
        Samples::Sixteen(samples) => big_endian(samples@),
    }
}

/// Appends `value` in decimal ASCII.
fn push_decimal(bytes: &mut Vec<u8>, value: u64)
    ensures
        final(bytes)@ == old(bytes)@ + ascii_decimal(value as nat),
    decreases value,
{
    if value >= 10 {
        push_decimal(bytes, value / 10);
    }
    let d = value % 10;
    bytes.push(48u8 + d as u8);
    proof {
        let c = digit(d as nat);
        assert(c as u8 == 48 + d);
        if value >= 10 {
            assert(decimal(value as nat) == decimal((value / 10) as nat).push(c));
            assert(ascii_decimal(value as nat) == ascii_decimal((value / 10) as nat).push(c as u8));
        } else {
            assert(decimal(value as nat) == seq![c]);
            assert(ascii_decimal(value as nat) == seq![c as u8]);
        }
    }
}

/// The bytes of a PNM file of `height x width` pixels of 1 (`P5`) or 3 (`P6`)
/// interleaved samples, of 8 bits, or of 16 bits, most significant byte first.
///
/// # Errors
///
/// [`Error::Options`] for a picture that is not of that size, or of other than 1 or
/// 3 channels.
pub fn pnm(samples: Samples, height: usize, width: usize, channels: usize) -> (result: Result<Vec<u8>, Error>)
    ensures
        match result {
            Ok(file) => {
                &&& shape_fits(samples.count() as int, height as int, width as int, channels as int)
                &&& file@ == pnm_header(
                    channels as int,
                    width as nat,
                    height as nat,
                    if samples.bits() == 16 {
                        65535
                    } else {
                        255
                    },
                ) + pnm_body(samples)
            },
            Err(error) => {
                &&& !shape_fits(samples.count() as int, height as int, width as int, channels as int)
                &&& error matches Error::Options(message)
                &&& message@ == shape_refusal(
                    samples.count() as int,
                    height as int,
                    width as int,
                    channels as int,
                )
            },
        },
{
    let count = match samples {
        Samples::Eight(values) => values.len(),
        Samples::Sixteen(values) => values.len(),
    };
    match shape(count, height, width, channels) {
        Ok(()) => {},
        Err(error) => return Err(error),
    }
    let mut file: Vec<u8> = Vec::new();
    file.push(80u8);
    file.push(if channels == 1 { 53u8 } else { 54u8 });
    file.push(10u8);
    push_decimal(&mut file, width as u64);
    file.push(32u8);
    push_decimal(&mut file, height as u64);
    file.push(10u8);
    let top: u64 = match samples {
        Samples::Eight(_) => 255,
        Samples::Sixteen(_) => 65535,
    };
    push_decimal(&mut file, top);
    file.push(10u8);
    let ghost header = file@;
    proof {
        assert(header == pnm_header(channels as int, width as nat, height as nat, top as nat));
    }
    match samples {
        Samples::Eight(values) => {
            let mut i: usize = 0;
            while i < values.len()
                invariant
                    i <= values@.len(),
                    file@ == header + values@.subrange(0, i as int),
                decreases values@.len() - i,
            {
                file.push(values[i]);
                proof {
                    assert(values@.subrange(0, i + 1) == values@.subrange(0, i as int).push(values@[i as int]));
                }
                i += 1;
            }
            assert(values@.subrange(0, values@.len() as int) == values@);
        },
        Samples::Sixteen(values) => {
            let mut i: usize = 0;
            while i < values.len()
                invariant
                    i <= values@.len(),
                    file@ == header + big_endian(values@.subrange(0, i as int)),
                decreases values@.len() - i,
            {
                let value = values[i];
                file.push((value / 256) as u8);
                file.push((value % 256) as u8);
                proof {
                    let before = big_endian(values@.subrange(0, i as int));
                    let after = big_endian(values@.subrange(0, i + 1));
                    assert(after == before.push((value / 256) as u8).push((value % 256) as u8));
                }
                i += 1;
            }
            assert(values@.subrange(0, values@.len() as int) == values@);
        },
    }
    Ok(file)
}

/// PNG's limit of a side, `2^31 - 1`.
pub const PNG_SIDE: usize = 0x7FFF_FFFF;

/// Why a side is larger than PNG allows.
pub open spec fn side_refusal(side: int) -> Seq<char> {
    "a side of "@ + decimal(side as nat) + " pixels is larger than PNG allows"@
}

/// Why a level is not one of zlib's.
pub open spec fn level_refusal(level: u8) -> Seq<char> {
    "zlib's level is 0 to 9, not "@ + decimal(level as nat)
}

/// What a PNG file of `count` samples of a picture of `height x width` pixels of
/// `channels` asks before the samples are rounded and the C layer writes it: the
/// shape of the picture, sides that PNG allows, and a level of zlib's. It gives the
/// rows and the columns as PNG takes them.
///
/// # Errors
///
/// [`Error::Options`] for a picture that is not of that size, of other than 1 or 3
/// channels, larger than PNG allows, and a level above 9: the first of them.
pub fn png_sides(count: usize, height: usize, width: usize, channels: usize, compression: Option<u8>) -> (result: Result<(u32, u32), Error>)
    ensures
        match result {
            Ok((rows, columns)) => {
                &&& shape_fits(count as int, height as int, width as int, channels as int)
                &&& height <= PNG_SIDE
                &&& width <= PNG_SIDE
                &&& rows == height
                &&& columns == width
                &&& compression matches Some(level) ==> level <= 9
            },
            Err(error) => {
                &&& error matches Error::Options(message)
                &&& if !shape_fits(count as int, height as int, width as int, channels as int) {
                    message@ == shape_refusal(count as int, height as int, width as int, channels as int)
                } else if height > PNG_SIDE {
                    message@ == side_refusal(height as int)
                } else if width > PNG_SIDE {
                    message@ == side_refusal(width as int)
                } else {
                    &&& compression matches Some(level)
                    &&& level > 9
                    &&& message@ == level_refusal(level)
                }
            },
        },
{
    match shape(count, height, width, channels) {
        Ok(()) => {},
        Err(error) => return Err(error),
    }
    if height > PNG_SIDE {
        return Err(side_error(height));
    }
    if width > PNG_SIDE {
        return Err(side_error(width));
    }
    match compression {
        Some(level) => if level > 9 {
            let mut message = text("zlib's level is 0 to 9, not ");
            add_number(&mut message, level as u64);
            return Err(Error::Options(message));
        },
        None => {},
    }
    Ok((height as u32, width as u32))
}

/// The error of a side larger than PNG allows.
fn side_error(side: usize) -> (error: Error)
    ensures
        error matches Error::Options(message) && message@ == side_refusal(side as int),
{
    let mut message = text("a side of ");
    add_number(&mut message, side as u64);
    add_text(&mut message, " pixels is larger than PNG allows");
    Error::Options(message)
}

/// The file that the C layer's writing gave, or its error: an argument that it
/// refused is an option out of its range, and anything else an error of the
/// writing.
pub fn png_written(result: Result<jpegio::Written, jpegio::Error>) -> (file: Result<Written, Error>)
    ensures
        match result {
            Ok(written) => file matches Ok(file) && file.bytes@ == written.bytes@ && file.warning@
                == written.warning@,
            Err(error) => if error.kind_view() == ErrorKind::Argument {
                file matches Err(Error::Options(message)) && message@ == error.message_view()
            } else {
                file matches Err(Error::Write(written)) && written == error
            },
        },
{
    match result {
        Ok(written) => Ok(Written { bytes: written.bytes, warning: written.warning }),
        Err(error) => if error.kind() == ErrorKind::Argument {
            Err(Error::Options(String::from_str(error.message())))
        } else {
            Err(Error::Write(error))
        },
    }
}

} // verus!
