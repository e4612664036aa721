//! The values that the C layer of JPEG reading and PNG writing hands over: its
//! statuses and errors, the color spaces, the limits of a read, the decoded
//! component planes, and a picture to write as PNG. The calls into the C layer
//! itself are made by the program around this library; what they return is
//! held here as plain values, and checked and read here.
use vstd::prelude::*;

pub mod testing;

use crate::error::{add_number, add_signed, add_text, decimal, signed_decimal, text};

verus! {

/// `UNROUND_JPEGIO_ABI_VERSION` of the header these values follow.
pub const ABI_VERSION: i32 = 1;
/// `UNROUND_JPEGIO_MAX_COMPONENTS`.
pub const MAX_COMPONENTS: usize = 4;
/// `UNROUND_JPEGIO_BLOCK_SIZE`: the coefficients of a block.
pub const BLOCK_SIZE: usize = 64;
/// The size of the message buffers that the C layer writes into.
pub const MESSAGE_SIZE: usize = 256;

/// `UNROUND_JPEGIO_OK`.
pub const OK: i32 = 0;
/// `UNROUND_JPEGIO_ERROR_ARGUMENT`: a null pointer, or a size the layer cannot pass on.
pub const ERROR_ARGUMENT: i32 = 1;
/// `UNROUND_JPEGIO_ERROR_DECODE`: libjpeg could not read the data.
pub const ERROR_DECODE: i32 = 2;
/// `UNROUND_JPEGIO_ERROR_UNSUPPORTED`: a JPEG outside the project's scope.
pub const ERROR_UNSUPPORTED: i32 = 3;
/// `UNROUND_JPEGIO_ERROR_LIMIT`: larger than the options allow.
pub const ERROR_LIMIT: i32 = 4;
/// `UNROUND_JPEGIO_ERROR_MEMORY`: an allocation failed.
pub const ERROR_MEMORY: i32 = 5;
/// `UNROUND_JPEGIO_ERROR_ENCODE`: libpng could not write the file.
pub const ERROR_ENCODE: i32 = 6;

/// `UNROUND_JPEGIO_GRAYSCALE`.
pub const GRAYSCALE: i32 = 1;
/// `UNROUND_JPEGIO_YCBCR`.
pub const YCBCR: i32 = 2;
/// `UNROUND_JPEGIO_RGB`: three components stored without a color transform.
pub const RGB: i32 = 3;

/// What went wrong, as the C layer's status says it.
#[derive(Debug, Clone, Copy, PartialEq, Eq, Structural, Hash)]
pub enum ErrorKind {
    /// An argument the C layer cannot take.
    Argument,
    /// Data that libjpeg could not read.
    Decode,
    /// A JPEG outside the project's scope: 12-bit, lossless, CMYK and the like.
    Unsupported,
    /// A file larger than the options allow.
    Limit,
    /// An allocation that failed.
    Memory,
    /// A file that libpng could not write.
    Encode,
}

/// The kind that a status of the C layer names, where it names one.
pub open spec fn kind_of_status(status: i32) -> Option<ErrorKind> {
    if status == ERROR_ARGUMENT {
        Some(ErrorKind::Argument)
    } else if status == ERROR_DECODE {
        Some(ErrorKind::Decode)
    } else if status == ERROR_UNSUPPORTED {
        Some(ErrorKind::Unsupported)
    } else if status == ERROR_LIMIT {
        Some(ErrorKind::Limit)
    } else if status == ERROR_MEMORY {
        Some(ErrorKind::Memory)
    } else if status == ERROR_ENCODE {
        Some(ErrorKind::Encode)
    } else {
        None
    }
}

/// The kind of the error of a status that is not success: the kind it names, or
/// [`ErrorKind::Decode`].
pub open spec fn status_kind(status: i32) -> ErrorKind {
    match kind_of_status(status) {
        Some(kind) => kind,
        None => ErrorKind::Decode,
    }
}

/// The message of the error of a status that is not success: the C layer's, and
/// where the status names no kind, the status before it.
pub open spec fn status_message(status: i32, message: Seq<char>) -> Seq<char> {
    match kind_of_status(status) {
        Some(_) => message,
        None => "the C layer returned status "@ + signed_decimal(status as int) + ": "@ + message,
    }
}

/// The name of a kind, as an error's text gives it.
pub open spec fn kind_name(kind: ErrorKind) -> Seq<char> {
    match kind {
        ErrorKind::Argument => "argument"@,
        ErrorKind::Decode => "decode"@,
        ErrorKind::Unsupported => "unsupported"@,
        ErrorKind::Limit => "limit"@,
        ErrorKind::Memory => "memory"@,
        ErrorKind::Encode => "encode"@,
    }
}

impl ErrorKind {
    /// The kind of a status of the C layer, or `None` for a status that names none
    /// (success among them).
    pub fn from_status(status: i32) -> (kind: Option<ErrorKind>)
        ensures
            kind == kind_of_status(status),
    {
        match status {
            ERROR_ARGUMENT => Some(ErrorKind::Argument),
            ERROR_DECODE => Some(ErrorKind::Decode),
            ERROR_UNSUPPORTED => Some(ErrorKind::Unsupported),
            ERROR_LIMIT => Some(ErrorKind::Limit),
            ERROR_MEMORY => Some(ErrorKind::Memory),
            ERROR_ENCODE => Some(ErrorKind::Encode),
            _ => None,
        }
    }

    /// Its name.
    pub fn name(self) -> (name: &'static str)
        ensures
            name@ == kind_name(self),
    {
        proof {
            reveal_strlit("argument");
            reveal_strlit("decode");
            reveal_strlit("unsupported");
            reveal_strlit("limit");
            reveal_strlit("memory");
            reveal_strlit("encode");
        }
        match self {
            ErrorKind::Argument => "argument",
            ErrorKind::Decode => "decode",
            ErrorKind::Unsupported => "unsupported",
            ErrorKind::Limit => "limit",
            ErrorKind::Memory => "memory",
            ErrorKind::Encode => "encode",
        }
    }
}

/// A JPEG file that the C layer could not read, or would not; or a PNG file that it
/// could not write.
#[derive(Debug, Clone)]
pub struct Error {
    kind: ErrorKind,
    message: String,
}

impl Error {
    /// What went wrong, in contracts.
    pub closed spec fn kind_view(&self) -> ErrorKind {
        self.kind
    }

    /// The description, in contracts.
    pub closed spec fn message_view(&self) -> Seq<char> {
        self.message@
    }

    /// What went wrong.
    pub fn kind(&self) -> (kind: ErrorKind)
        ensures
            kind == self.kind_view(),
    {
        self.kind
    }

    /// The C layer's description of it.
    pub fn message(&self) -> (message: &str)
        ensures
            message@ == self.message_view(),
    {
        self.message.as_str()
    }

    /// An error of a kind, with its message.
    pub fn new(kind: ErrorKind, message: String) -> (error: Error)
        ensures
            error.kind_view() == kind,
            error.message_view() == message@,
    {
        Error { kind, message }
    }

    /// The error of a status that is not success: the kind it names, with the C
    /// layer's message; a status that names no kind is a decoding error whose
    /// message names the status.
    pub fn from_status(status: i32, message: String) -> (error: Error)
        ensures
            error.kind_view() == status_kind(status),
            error.message_view() == status_message(status, message@),
    {
        match ErrorKind::from_status(status) {
            Some(kind) => Error { kind, message },
            None => {
                let mut text = text("the C layer returned status ");
                add_signed(&mut text, status as i64);
                add_text(&mut text, ": ");
                add_text(&mut text, message.as_str());
                Error { kind: ErrorKind::Decode, message: text }
            },
        }
    }

    /// Its text: the message, and the kind's name in brackets.
    pub fn text(&self) -> (text: String)
        ensures
            text@ == self.message_view() + " ("@ + kind_name(self.kind_view()) + ")"@,
    {
        let mut text = self.message.clone();
        text.append(" (");
        text.append(self.kind.name());
        text.append(")");
        proof {
            reveal_strlit(" (");
            reveal_strlit(")");
        }
        text
    }
}

/// An argument of the C layer refused before the call: an error of the kind
/// [`ErrorKind::Argument`].
pub fn refused(message: String) -> (error: Error)
    ensures
        error.kind_view() == ErrorKind::Argument,
        error.message_view() == message@,
{
    Error { kind: ErrorKind::Argument, message }
}


/// The limits a read accepts; zero means the C layer's defaults (1 << 28 pixels,
/// 500 scans).
#[derive(Debug, Clone, Copy, Default, PartialEq, Eq)]
pub struct Options {
    /// The largest width * height a file may declare.
    pub max_pixels: u64,
    /// The most scans a progressive file may have.
    pub max_scans: u32,
    /// Whether a corrupt-data warning fails the read.
    pub warnings_are_errors: bool,
}

/// `unround_jpegio_options`, as the C layer takes it.
#[derive(Debug, Clone, Copy, Default, PartialEq, Eq)]
pub struct RawOptions {
    /// width * height; 0 means 1 << 28.
    pub max_pixels: u64,
    /// SOS markers of a progressive file; 0 means 500.
    pub max_scans: i32,
    /// Nonzero: a corrupt-data warning fails the read.
    pub warnings_are_errors: i32,
}

impl Options {
    /// The options as the C layer takes them: more scans than an `int32_t` holds is
    /// no limit at all, and is given as the most it holds.
    pub fn to_ffi(self) -> (raw: RawOptions)
        ensures
            raw.max_pixels == self.max_pixels,
            raw.max_scans == (if self.max_scans <= i32::MAX { self.max_scans as int } else { i32::MAX as int }),
            raw.warnings_are_errors == (if self.warnings_are_errors { 1int } else { 0 }),
    {
        RawOptions {
            max_pixels: self.max_pixels,
            max_scans: if self.max_scans <= 0x7FFF_FFFF { self.max_scans as i32 } else { 0x7FFF_FFFF },
            warnings_are_errors: if self.warnings_are_errors { 1 } else { 0 },
        }
    }
}

/// The color space of the components, as the file declares it.
#[derive(Debug, Clone, Copy, PartialEq, Eq, Structural, Hash)]
pub enum ColorSpace {
    /// One component.
    Grayscale,
    /// Three components: luma and two chroma differences.
    YCbCr,
    /// Three components stored without a color transform.
    Rgb,
}

/// The color space that a code of the C layer names, where it names one.
pub open spec fn color_space_of_code(code: i32) -> Option<ColorSpace> {
    if code == GRAYSCALE {
        Some(ColorSpace::Grayscale)
    } else if code == YCBCR {
        Some(ColorSpace::YCbCr)
    } else if code == RGB {
        Some(ColorSpace::Rgb)
    } else {
        None
    }
}

impl ColorSpace {
    /// The color space of a code of the C layer: `GRAYSCALE`, `YCBCR` or `RGB`.
    pub fn from_code(code: i32) -> (space: Option<ColorSpace>)
        ensures
            space == color_space_of_code(code),
    {
        match code {
            GRAYSCALE => Some(ColorSpace::Grayscale),
            YCBCR => Some(ColorSpace::YCbCr),
            RGB => Some(ColorSpace::Rgb),
            _ => None,
        }
    }
}

/// A count of the C layer as a `usize`: lossless, since a `usize` has at least 32
/// bits.
pub fn to_usize(value: u32) -> (result: usize)
    ensures
        result == value,
{
    value as usize
}

/// The coefficients of a component of `width_in_blocks x height_in_blocks` blocks,
/// where the count fits in a `usize`.
pub fn coefficient_count(width_in_blocks: u32, height_in_blocks: u32) -> (count: Option<usize>)
    ensures
        match count {
            Some(count) => count == width_in_blocks * height_in_blocks * BLOCK_SIZE,
            None => width_in_blocks * height_in_blocks * BLOCK_SIZE > usize::MAX,
        },
{
    match to_usize(width_in_blocks).checked_mul(to_usize(height_in_blocks)) {
        Some(blocks) => {
            let count = blocks.checked_mul(BLOCK_SIZE);
            proof {
                if count is None {
                    assert(width_in_blocks * height_in_blocks * BLOCK_SIZE == blocks * 64);
                }
            }
            count
        },
        None => {
            proof {
                assert(width_in_blocks * height_in_blocks * BLOCK_SIZE >= width_in_blocks
                    * height_in_blocks) by (nonlinear_arith)
                    requires
                        width_in_blocks * height_in_blocks >= 0,
                ;
            }
            None
        },
    }
}

/// The samples of a plane of `height` rows of `stride` samples, where the count
/// fits in a `usize`.
pub fn sample_count(stride: u32, height: u32) -> (count: Option<usize>)
    ensures
        match count {
            Some(count) => count == stride * height,
            None => stride * height > usize::MAX,
        },
{
    to_usize(stride).checked_mul(to_usize(height))
}

/// The components that a count of the C layer names: 0 to `MAX_COMPONENTS`.
pub fn component_count(num_components: i32) -> (count: Option<usize>)
    ensures
        match count {
            Some(count) => 0 <= num_components <= MAX_COMPONENTS && count == num_components,
            None => !(0 <= num_components <= MAX_COMPONENTS),
        },
{
    if 0 <= num_components && num_components <= 4 {
        Some(num_components as usize)
    } else {
        None
    }
}

/// What a plane holds, in contracts.
pub ghost struct PlaneView {
    /// Samples of a row that carry the plane.
    pub width: u32,
    /// Rows.
    pub height: u32,
    /// Samples from one row to the next.
    pub stride: u32,
    /// All the samples.
    pub samples: Seq<u8>,
}

/// One component of [`Planes`]: the inverse DCT of its coefficients with
/// libjpeg's accurate integer method, level-shifted and clamped to 0-255, padded
/// to whole blocks.
#[derive(Debug, Clone)]
pub struct Plane {
    width: u32,
    height: u32,
    stride: u32,
    samples: Vec<u8>,
}

impl View for Plane {
    type V = PlaneView;

    closed spec fn view(&self) -> PlaneView {
        PlaneView {
            width: self.width,
            height: self.height,
            stride: self.stride,
            samples: self.samples@,
        }
    }
}

impl Plane {
    /// A plane of the C layer, taken where it can be one: rows no wider than the
    /// stride, and `stride * height` samples.
    pub fn new(width: u32, height: u32, stride: u32, samples: Vec<u8>) -> (plane: Option<Plane>)
        ensures
            match plane {
                Some(plane) => {
                    &&& width <= stride
                    &&& samples@.len() == stride * height
                    &&& plane@ == PlaneView { width, height, stride, samples: samples@ }
                },
                None => !(width <= stride && samples@.len() == stride * height),
            },
    {
        let len = samples.len();
        match sample_count(stride, height) {
            Some(count) => {
                if width <= stride && count == len {
                    let plane = Plane { width, height, stride, samples };
                    assert(plane@.samples == samples@);
                    Some(plane)
                } else {
                    None
                }
            },
            None => None,
        }
    }

    /// `width_in_blocks * 8`.
    pub fn width(&self) -> (width: u32)
        ensures
            width == self@.width,
    {
        self.width
    }

    /// `height_in_blocks * 8`.
    pub fn height(&self) -> (height: u32)
        ensures
            height == self@.height,
    {
        self.height
    }

    /// Samples from one row to the next.
    pub fn stride(&self) -> (stride: u32)
        ensures
            stride == self@.stride,
    {
        self.stride
    }

    /// All the samples: `stride * height` of them.
    pub fn samples(&self) -> (samples: &[u8])
        ensures
            samples@ == self@.samples,
    {
        self.samples.as_slice()
    }

    /// The `width` samples of row `y`.
    pub fn row(&self, y: u32) -> (row: Option<&[u8]>)
        ensures
            match row {
                Some(row) => {
                    &&& y < self@.height
                    &&& y * self@.stride + self@.width <= self@.samples.len()
                    &&& row@ == self@.samples.subrange(
                        y * self@.stride,
                        y * self@.stride + self@.width,
                    )
                },
                None => !(y < self@.height && y * self@.stride + self@.width
                    <= self@.samples.len()),
            },
    {
        let len = self.samples.len();
        if y >= self.height {
            return None;
        }
        let start = match to_usize(y).checked_mul(to_usize(self.stride)) {
            Some(start) => start,
            None => {
                assert(y * self.stride + self.width > len);
                return None;
            },
        };
        let end = match start.checked_add(to_usize(self.width)) {
            Some(end) => end,
            None => {
                assert(y * self.stride + self.width > len);
                return None;
            },
        };
        if end > len {
            return None;
        }
        Some(&self.samples.as_slice()[start..end])
    }
}

/// `unround_jpegio_plane` as a decoding returned it, its samples copied: `None`
/// where the C layer left no samples.
#[derive(Debug, Clone)]
pub struct RawPlane {
    /// `width_in_blocks * 8`.
    pub width: u32,
    /// `height_in_blocks * 8`.
    pub height: u32,
    /// Samples from one row to the next.
    pub stride: u32,
    /// `stride * height` samples.
    pub samples: Option<Vec<u8>>,
}

/// Whether a plane that a decoding returned is whole: rows no wider than the stride,
/// and `stride * height` samples, all there.
pub open spec fn plane_is_whole(raw: RawPlane) -> bool {
    &&& raw.width <= raw.stride
    &&& raw.samples matches Some(samples)
    &&& samples@.len() == raw.stride * raw.height
}

/// The view of a whole plane that a decoding returned.
pub open spec fn plane_of(raw: RawPlane) -> PlaneView {
    PlaneView { width: raw.width, height: raw.height, stride: raw.stride, samples: raw.samples->0@ }
}

/// The component planes of a JPEG file, as the C layer decodes them.
#[derive(Debug, Clone)]
pub struct Planes {
    planes: Vec<Plane>,
    warning: String,
}

impl Planes {
    /// The planes of a decoding that succeeded, with its first corrupt-data warning,
    /// where the C layer returned planes that it can have.
    ///
    /// # Errors
    ///
    /// [`ErrorKind::Decode`] where the count of components is not one the C layer
    /// names, or a plane is not whole.
    pub fn from_raw(num_components: i32, raw: Vec<RawPlane>, warning: String) -> (result: Result<Planes, Error>)
        requires
            raw@.len() == MAX_COMPONENTS,
        ensures
            match result {
                Ok(planes) => {
                    &&& 0 <= num_components <= MAX_COMPONENTS
                    &&& forall|i: int| 0 <= i < num_components ==> plane_is_whole(#[trigger] raw@[i])
                    &&& planes.planes_view().len() == num_components
                    &&& forall|i: int|
                        0 <= i < num_components ==> (#[trigger] planes.planes_view()[i])@
                            == plane_of(raw@[i])
                    &&& planes.warning_view() == warning@
                },
                Err(error) => {
                    &&& error.kind_view() == ErrorKind::Decode
                    &&& if 0 <= num_components <= MAX_COMPONENTS {
                        &&& exists|i: int| 0 <= i < num_components && !plane_is_whole(#[trigger] raw@[i])
                        &&& error.message_view() == "the C layer returned a plane it cannot have"@
                    } else {
                        error.message_view() == "the C layer returned planes it cannot have"@
                    }
                },
            },
    {
        let count = match component_count(num_components) {
            Some(count) => count,
            None => {
                return Err(Error::new(ErrorKind::Decode, text("the C layer returned planes it cannot have")));
            },
        };
        let mut planes: Vec<Plane> = Vec::new();
        let mut i: usize = 0;
        while i < count
            invariant
                count <= MAX_COMPONENTS,
                count == num_components,
                raw@.len() == MAX_COMPONENTS,
                i <= count,
                planes@.len() == i,
                forall|k: int| 0 <= k < i ==> plane_is_whole(#[trigger] raw@[k]),
                forall|k: int| 0 <= k < i ==> (#[trigger] planes@[k])@ == plane_of(raw@[k]),
            decreases count - i,
        {
            let source = &raw[i];
            let samples = match &source.samples {
                Some(samples) => samples.clone(),
                None => {
                    assert(!plane_is_whole(raw@[i as int]));
                    return Err(Error::new(ErrorKind::Decode, text("the C layer returned a plane it cannot have")));
                },
            };
            match Plane::new(source.width, source.height, source.stride, samples) {
                Some(plane) => planes.push(plane),
                None => {
                    assert(!plane_is_whole(raw@[i as int]));
                    return Err(Error::new(ErrorKind::Decode, text("the C layer returned a plane it cannot have")));
                },
            }
            i += 1;
        }
        Ok(Planes { planes, warning })
    }

    /// The planes, in contracts.
    pub closed spec fn planes_view(&self) -> Seq<Plane> {
        self.planes@
    }

    /// The warning, in contracts.
    pub closed spec fn warning_view(&self) -> Seq<char> {
        self.warning@
    }

    /// The planes, one for each component.
    pub fn planes(&self) -> (planes: &[Plane])
        ensures
            planes@ == self.planes_view(),
    {
        self.planes.as_slice()
    }

    /// One plane, when there is one of that index.
    pub fn plane(&self, index: usize) -> (plane: Option<&Plane>)
        ensures
            match plane {
                Some(plane) => index < self.planes_view().len() && *plane == self.planes_view()[index as int],
                None => index >= self.planes_view().len(),
            },
    {
        if index < self.planes.len() {
            Some(&self.planes[index])
        } else {
            None
        }
    }

    /// The first corrupt-data warning libjpeg reported while decoding, or an empty string.
    pub fn warning(&self) -> (warning: &str)
        ensures
            warning@ == self.warning_view(),
    {
        self.warning.as_str()
    }
}


/// The samples of a picture to write as PNG.
#[derive(Debug, Clone, Copy)]
pub enum Samples<'a> {
    /// 8 bits each.
    Eight(&'a [u8]),
    /// 16 bits each.
    Sixteen(&'a [u16]),
}

impl<'a> Samples<'a> {
    /// The count of the samples, in contracts.
    pub open spec fn count(self) -> nat {
        match self {
            Samples::Eight(samples) => samples@.len(),
            Samples::Sixteen(samples) => samples@.len(),
        }
    }

    /// The bits of a sample, in contracts.
    pub open spec fn bits(self) -> int {
        match self {
            Samples::Eight(_) => 8,
            Samples::Sixteen(_) => 16,
        }
    }
}

/// A picture to write as a PNG file: `height x width` pixels of 1 (gray) or 3
/// (RGB) samples, rows from the top, each from the left, the samples of a pixel
/// together.
#[derive(Debug, Clone, Copy)]
pub struct Png<'a> {
    /// Pixels across, 1 or more.
    pub width: u32,
    /// Rows, 1 or more.
    pub height: u32,
    /// Samples to a pixel: 1 or 3.
    pub channels: u32,
    /// `height * width * channels` samples.
    pub samples: Samples<'a>,
    /// zlib's level for the samples and the ICC profile, 0 (none) to 9 (the most), or
    /// `None` for zlib's default (6).
    pub compression: Option<u8>,
    /// An ICC profile for the iCCP chunk. One that the C layer's check refuses is
    /// left out, with a warning; one of more than 8000000 bytes, which libpng's
    /// readers leave out unless they allow more, is written with a warning.
    pub icc_profile: Option<&'a [u8]>,
}

/// `unround_jpegio_png` without its pointers, which the call takes from the
/// [`Png`]: the picture's size, its channels and bits, the level, and the counts
/// of the samples and of the profile's bytes.
#[derive(Debug, Clone, Copy, PartialEq, Eq)]
pub struct RawPng {
    /// Pixels across.
    pub width: u32,
    /// Rows.
    pub height: u32,
    /// Samples to a pixel.
    pub channels: i32,
    /// 8 or 16.
    pub bits: i32,
    /// 0 to 9, or -1 for zlib's default.
    pub compression: i32,
    /// The samples that the call reads.
    pub samples: usize,
    /// The bytes of the ICC profile, 0 where there is none.
    pub icc_profile_size: u64,
}

/// A PNG file that the C layer wrote, and the first warning of its writing, or an
/// empty string.
#[derive(Debug, Clone)]
pub struct Written {
    /// The bytes of the file.
    pub bytes: Vec<u8>,
    /// The first warning, such as an ICC profile that is not written, and why.
    pub warning: String,
}

/// Why a picture's samples are not as many as its size says.
pub open spec fn count_refusal(height: u32, width: u32, channels: u32, count: nat) -> Seq<char> {
    "a picture of "@ + decimal(height as nat) + " x "@ + decimal(width as nat) + " pixels of "@
        + decimal(channels as nat) + " samples, not of "@ + decimal(count) + " samples"@
}

impl<'a> Png<'a> {
    /// Whether the samples are as many as `height x width x channels`, counted in a
    /// `usize` pixels first.
    pub open spec fn counted(&self) -> bool {
        &&& self.width * self.height <= usize::MAX
        &&& self.width * self.height * self.channels == self.samples.count()
    }

    /// The picture as `unround_jpegio_write_png` takes it, where the call can take
    /// it: as many samples as `height x width x channels` in a `usize`, and channels
    /// that an `int32_t` holds.
    ///
    /// # Errors
    ///
    /// [`ErrorKind::Argument`] where it cannot. The picture's size, its channels and
    /// its level are then the C layer's to check.
    pub fn to_raw(&self) -> (raw: Result<RawPng, Error>)
        ensures
            match raw {
                Ok(raw) => {
                    &&& self.counted()
                    &&& self.channels <= i32::MAX
                    &&& raw.width == self.width
                    &&& raw.height == self.height
                    &&& raw.channels == self.channels
                    &&& raw.bits == self.samples.bits()
                    &&& raw.compression == match self.compression {
                        Some(level) => level as int,
                        None => -1,
                    }
                    &&& raw.samples == self.samples.count()
                    &&& raw.icc_profile_size == match self.icc_profile {
                        Some(profile) => profile@.len() as int,
                        None => 0,
                    }
                },
                Err(error) => {
                    &&& error.kind_view() == ErrorKind::Argument
                    &&& if !self.counted() {
                        error.message_view() == count_refusal(
                            self.height,
                            self.width,
                            self.channels,
                            self.samples.count(),
                        )
                    } else {
                        &&& self.channels > i32::MAX
                        &&& error.message_view() == "a PNG picture here has 1 or 3 channels"@
                    }
                },
            },
    {
        let (length, bits) = match self.samples {
            Samples::Eight(samples) => (samples.len(), 8i32),
            Samples::Sixteen(samples) => (samples.len(), 16i32),
        };
        let count = match to_usize(self.width).checked_mul(to_usize(self.height)) {
            Some(pixels) => pixels.checked_mul(to_usize(self.channels)),
            None => None,
        };
        let matches = match count {
            Some(count) => count == length,
            None => false,
        };
        if !matches {
            let mut message = text("a picture of ");
            add_number(&mut message, self.height as u64);
            add_text(&mut message, " x ");
            add_number(&mut message, self.width as u64);
            add_text(&mut message, " pixels of ");
            add_number(&mut message, self.channels as u64);
            add_text(&mut message, " samples, not of ");
            add_number(&mut message, length as u64);
            add_text(&mut message, " samples");
            return Err(refused(message));
        }
        if self.channels > 0x7FFF_FFFF {
            return Err(refused(text("a PNG picture here has 1 or 3 channels")));
        }
        let icc_profile_size = match self.icc_profile {
            Some(profile) => profile.len() as u64,
            None => 0,
        };
        Ok(RawPng {
            width: self.width,
            height: self.height,
            channels: self.channels as i32,
            bits,
            compression: match self.compression {
                Some(level) => level as i32,
                None => -1,
            },
            samples: length,
            icc_profile_size,
        })
    }
}

/// What a writing of the C layer gives: its status, its message, and the bytes that
/// it returned (none where it returned no file).
///
/// # Errors
///
/// The error of a status that is not success, with the message; and
/// [`ErrorKind::Encode`] where a successful writing returned no bytes.
pub fn written(status: i32, message: String, bytes: Vec<u8>) -> (result: Result<Written, Error>)
    ensures
        match result {
            Ok(file) => status == OK && bytes@.len() > 0 && file.bytes@ == bytes@ && file.warning@
                == message@,
            Err(error) => if status != OK {
                error.kind_view() == status_kind(status) && error.message_view() == status_message(
                    status,
                    message@,
                )
            } else {
                &&& bytes@.len() == 0
                &&& error.kind_view() == ErrorKind::Encode
                &&& error.message_view() == "the C layer returned no file"@
            },
        },
{
    if status != OK {
        return Err(Error::from_status(status, message));
    }
    if bytes.len() == 0 {
        return Err(Error::new(ErrorKind::Encode, text("the C layer returned no file")));
    }
    Ok(Written { bytes, warning: message })
}


/// `unround_jpegio_component` as a read returned it, its coefficients copied:
/// `None` where the C layer left no coefficients.
#[derive(Debug, Clone)]
pub struct RawComponent {
    /// The component identifier of the SOF marker.
    pub id: i32,
    /// 1 to 4.
    pub h_samp_factor: i32,
    /// 1 to 4.
    pub v_samp_factor: i32,
    /// 0 to 3: the DQT slot the SOF marker names for the component.
    pub quant_table_slot: i32,
    /// Samples of this component that cover the image.
    pub width: u32,
    /// Rows of this component that cover the image.
    pub height: u32,
    /// ceil(width / 8): the blocks that carry image data.
    pub width_in_blocks: u32,
    /// ceil(height / 8).
    pub height_in_blocks: u32,
    /// The quantization table the component was quantized with, in natural order.
    pub quant_table: [u16; 64],
    /// `height_in_blocks * width_in_blocks` blocks of 64 coefficients in natural order.
    pub coefficients: Option<Vec<i16>>,
}

/// `unround_jpegio_image` as a read returned it, its arrays copied.
#[derive(Debug, Clone)]
pub struct RawImage {
    /// Samples across.
    pub width: u32,
    /// Rows.
    pub height: u32,
    /// `GRAYSCALE`, `YCBCR` or `RGB`.
    pub color_space: i32,
    /// 1 or 3.
    pub num_components: i32,
    /// The largest horizontal sampling factor.
    pub max_h_samp_factor: i32,
    /// The largest vertical sampling factor.
    pub max_v_samp_factor: i32,
    /// 1 when the file is progressive.
    pub progressive: i32,
    /// 1 when the file is arithmetic-coded.
    pub arithmetic: i32,
    /// 1 to 8 from the EXIF APP1 marker, or 0 when there is none.
    pub exif_orientation: i32,
    /// Corrupt-data warnings libjpeg reported while reading.
    pub warnings: i32,
    /// The `MAX_COMPONENTS` components; the first `num_components` of them are filled in.
    pub components: Vec<RawComponent>,
    /// The ICC profile of the APP2 markers, where there is one.
    pub icc_profile: Option<Vec<u8>>,
}

/// What a component holds, in contracts.
pub ghost struct ComponentView {
    /// The component identifier of the SOF marker.
    pub id: i32,
    /// The horizontal sampling factor.
    pub h_samp_factor: i32,
    /// The vertical sampling factor.
    pub v_samp_factor: i32,
    /// The DQT slot.
    pub quant_table_slot: i32,
    /// Samples across.
    pub width: u32,
    /// Rows.
    pub height: u32,
    /// Blocks across.
    pub width_in_blocks: u32,
    /// Block rows.
    pub height_in_blocks: u32,
    /// The quantization table, in natural order.
    pub quant_table: Seq<u16>,
    /// The coefficients, 64 to a block.
    pub coefficients: Seq<i16>,
}

/// One component of an [`Image`].
#[derive(Debug, Clone)]
pub struct Component {
    id: i32,
    h_samp_factor: i32,
    v_samp_factor: i32,
    quant_table_slot: i32,
    width: u32,
    height: u32,
    width_in_blocks: u32,
    height_in_blocks: u32,
    quant_table: [u16; 64],
    coefficients: Vec<i16>,
}

impl View for Component {
    type V = ComponentView;

    closed spec fn view(&self) -> ComponentView {
        ComponentView {
            id: self.id,
            h_samp_factor: self.h_samp_factor,
            v_samp_factor: self.v_samp_factor,
            quant_table_slot: self.quant_table_slot,
            width: self.width,
            height: self.height,
            width_in_blocks: self.width_in_blocks,
            height_in_blocks: self.height_in_blocks,
            quant_table: self.quant_table@,
            coefficients: self.coefficients@,
        }
    }
}

/// Whether a component that a read returned is whole: its coefficients counted in a
/// `usize`, and all of them there.
pub open spec fn component_is_whole(raw: RawComponent) -> bool {
    &&& raw.width_in_blocks * raw.height_in_blocks * 64 <= usize::MAX
    &&& raw.coefficients matches Some(coefficients)
    &&& coefficients@.len() == raw.width_in_blocks * raw.height_in_blocks * 64
}

/// The view of a whole component that a read returned.
pub open spec fn component_of(raw: RawComponent) -> ComponentView {
    ComponentView {
        id: raw.id,
        h_samp_factor: raw.h_samp_factor,
        v_samp_factor: raw.v_samp_factor,
        quant_table_slot: raw.quant_table_slot,
        width: raw.width,
        height: raw.height,
        width_in_blocks: raw.width_in_blocks,
        height_in_blocks: raw.height_in_blocks,
        quant_table: raw.quant_table@,
        coefficients: raw.coefficients->0@,
    }
}

impl Component {
    /// The coefficients are `height_in_blocks * width_in_blocks` blocks of 64.
    pub open spec fn wf(&self) -> bool {
        self@.coefficients.len() == self@.width_in_blocks * self@.height_in_blocks * 64
    }

    /// The component identifier of the SOF marker.
    pub fn id(&self) -> (id: i32)
        ensures
            id == self@.id,
    {
        self.id
    }

    /// 1 to 4.
    pub fn h_samp_factor(&self) -> (factor: i32)
        ensures
            factor == self@.h_samp_factor,
    {
        self.h_samp_factor
    }

    /// 1 to 4.
    pub fn v_samp_factor(&self) -> (factor: i32)
        ensures
            factor == self@.v_samp_factor,
    {
        self.v_samp_factor
    }

    /// 0 to 3: the DQT slot the SOF marker names for the component.
    pub fn quant_table_slot(&self) -> (slot: i32)
        ensures
            slot == self@.quant_table_slot,
    {
        self.quant_table_slot
    }

    /// Samples of this component that cover the image.
    pub fn width(&self) -> (width: u32)
        ensures
            width == self@.width,
    {
        self.width
    }

    /// Rows of this component that cover the image.
    pub fn height(&self) -> (height: u32)
        ensures
            height == self@.height,
    {
        self.height
    }

    /// ceil(width / 8): the blocks that carry image data.
    pub fn width_in_blocks(&self) -> (blocks: u32)
        ensures
            blocks == self@.width_in_blocks,
    {
        self.width_in_blocks
    }

    /// ceil(height / 8).
    pub fn height_in_blocks(&self) -> (blocks: u32)
        ensures
            blocks == self@.height_in_blocks,
    {
        self.height_in_blocks
    }

    /// The quantization table the component was quantized with, in natural order:
    /// entry `v * 8 + u` for vertical frequency v and horizontal frequency u.
    pub fn quant_table(&self) -> (table: &[u16; 64])
        ensures
            table@ == self@.quant_table,
    {
        &self.quant_table
    }

    /// The coefficients: `height_in_blocks * width_in_blocks` blocks, block rows
    /// from the top and blocks from the left, each 64 in natural order.
    pub fn coefficients(&self) -> (coefficients: &[i16])
        ensures
            coefficients@ == self@.coefficients,
    {
        self.coefficients.as_slice()
    }

    /// The 64 coefficients of the block in block column `x` and block row `y`.
    pub fn block(&self, x: u32, y: u32) -> (block: Option<&[i16]>)
        requires
            self.wf(),
        ensures
            match block {
                Some(block) => {
                    &&& x < self@.width_in_blocks
                    &&& y < self@.height_in_blocks
                    &&& block@ == self@.coefficients.subrange(
                        (y * self@.width_in_blocks + x) * 64,
                        (y * self@.width_in_blocks + x) * 64 + 64,
                    )
                },
                None => !(x < self@.width_in_blocks && y < self@.height_in_blocks),
            },
    {
        let len = self.coefficients.len();
        if x >= self.width_in_blocks || y >= self.height_in_blocks {
            return None;
        }
        let wide = to_usize(self.width_in_blocks);
        proof {
            assert((y + 1) * self.width_in_blocks <= self.height_in_blocks * self.width_in_blocks)
                by (nonlinear_arith)
                requires
                    y + 1 <= self.height_in_blocks,
            ;
            assert(((y * self.width_in_blocks + x) + 1) * 64 <= self.height_in_blocks
                * self.width_in_blocks * 64) by (nonlinear_arith)
                requires
                    (y + 1) * self.width_in_blocks <= self.height_in_blocks * self.width_in_blocks,
                    x < self.width_in_blocks,
            ;
            assert(self.width_in_blocks * self.height_in_blocks * 64 == self.height_in_blocks
                * self.width_in_blocks * 64) by (nonlinear_arith);
            assert(y * self.width_in_blocks <= y * self.width_in_blocks + x);
            assert(y * self.width_in_blocks + x <= (y * self.width_in_blocks + x) * 64);
        }
        let start = (to_usize(y) * wide + to_usize(x)) * BLOCK_SIZE;
        Some(&self.coefficients.as_slice()[start..start + BLOCK_SIZE])
    }
}

/// What an image holds, in contracts.
pub ghost struct ImageView {
    /// Samples across.
    pub width: u32,
    /// Rows.
    pub height: u32,
    /// The color space of the components.
    pub color_space: ColorSpace,
    /// The largest horizontal sampling factor.
    pub max_h_samp_factor: i32,
    /// The largest vertical sampling factor.
    pub max_v_samp_factor: i32,
    /// Whether the file is progressive.
    pub progressive: bool,
    /// Whether it is arithmetic-coded.
    pub arithmetic: bool,
    /// 1 to 8 from the EXIF APP1 marker, or 0.
    pub exif_orientation: i32,
    /// Corrupt-data warnings.
    pub warnings: i32,
    /// The components.
    pub components: Seq<Component>,
    /// The ICC profile, where there is one that is not empty.
    pub icc_profile: Option<Seq<u8>>,
    /// The first warning, or an empty string.
    pub warning: Seq<char>,
}

/// The coefficients and the metadata of a JPEG file, as the C layer reads them.
#[derive(Debug, Clone)]
pub struct Image {
    width: u32,
    height: u32,
    color_space: ColorSpace,
    max_h_samp_factor: i32,
    max_v_samp_factor: i32,
    progressive: bool,
    arithmetic: bool,
    exif_orientation: i32,
    warnings: i32,
    components: Vec<Component>,
    icc_profile: Option<Vec<u8>>,
    warning: String,
}

impl View for Image {
    type V = ImageView;

    closed spec fn view(&self) -> ImageView {
        ImageView {
            width: self.width,
            height: self.height,
            color_space: self.color_space,
            max_h_samp_factor: self.max_h_samp_factor,
            max_v_samp_factor: self.max_v_samp_factor,
            progressive: self.progressive,
            arithmetic: self.arithmetic,
            exif_orientation: self.exif_orientation,
            warnings: self.warnings,
            components: self.components@,
            icc_profile: match self.icc_profile {
                Some(profile) => if profile@.len() > 0 {
                    Some(profile@)
                } else {
                    None
                },
                None => None,
            },
            warning: self.warning@,
        }
    }
}

/// Whether an image that a read returned is one it can have: a count of components
/// and a color space that the C layer names, and each of those components whole.
pub open spec fn image_is_whole(raw: RawImage) -> bool {
    &&& 0 <= raw.num_components <= MAX_COMPONENTS
    &&& color_space_of_code(raw.color_space) is Some
    &&& forall|i: int| 0 <= i < raw.num_components ==> component_is_whole(#[trigger] raw.components@[i])
}

impl Image {
    /// The image of a read that succeeded, with the first warning of the read, where
    /// the C layer returned one that it can have.
    ///
    /// # Errors
    ///
    /// [`ErrorKind::Decode`] where the count of components or the color space is not
    /// one the C layer names, or a component is not whole.
    pub fn from_raw(raw: RawImage, warning: String) -> (image: Result<Image, Error>)
        requires
            raw.components@.len() == MAX_COMPONENTS,
        ensures
            match image {
                Ok(image) => {
                    &&& image_is_whole(raw)
                    &&& image@.width == raw.width
                    &&& image@.height == raw.height
                    &&& image@.color_space == color_space_of_code(raw.color_space)->0
                    &&& image@.max_h_samp_factor == raw.max_h_samp_factor
                    &&& image@.max_v_samp_factor == raw.max_v_samp_factor
                    &&& image@.progressive == (raw.progressive != 0)
                    &&& image@.arithmetic == (raw.arithmetic != 0)
                    &&& image@.exif_orientation == raw.exif_orientation
                    &&& image@.warnings == raw.warnings
                    &&& image@.components.len() == raw.num_components
                    &&& forall|i: int|
                        0 <= i < raw.num_components ==> (#[trigger] image@.components[i])@
                            == component_of(raw.components@[i])
                    &&& forall|i: int| 0 <= i < raw.num_components ==> (#[trigger] image@.components[i]).wf()
                    &&& image@.icc_profile == match raw.icc_profile {
                        Some(profile) => if profile@.len() > 0 {
                            Some(profile@)
                        } else {
                            None
                        },
                        None => None,
                    }
                    &&& image@.warning == warning@
                },
                Err(error) => {
                    &&& !image_is_whole(raw)
                    &&& error.kind_view() == ErrorKind::Decode
                    &&& error.message_view() == if 0 <= raw.num_components <= MAX_COMPONENTS
                        && color_space_of_code(raw.color_space) is Some {
                        "the C layer returned a component it cannot have"@
                    } else {
                        "the C layer returned an image it cannot have"@
                    }
                },
            },
    {
        let count = component_count(raw.num_components);
        let space = ColorSpace::from_code(raw.color_space);
        let (count, color_space) = match (count, space) {
            (Some(count), Some(space)) => (count, space),
            _ => {
                return Err(Error::new(
                    ErrorKind::Decode,
                    text("the C layer returned an image it cannot have"),
                ));
            },
        };
        let RawImage {
            width,
            height,
            color_space: _,
            num_components: _,
            max_h_samp_factor,
            max_v_samp_factor,
            progressive,
            arithmetic,
            exif_orientation,
            warnings,
            components: raw_components,
            icc_profile,
        } = raw;
        let mut components: Vec<Component> = Vec::new();
        let mut i: usize = 0;
        while i < count
            invariant
                count <= MAX_COMPONENTS,
                count == raw.num_components,
                color_space_of_code(raw.color_space) is Some,
                raw_components@ == raw.components@,
                raw_components@.len() == MAX_COMPONENTS,
                i <= count,
                components@.len() == i,
                forall|k: int| 0 <= k < i ==> component_is_whole(#[trigger] raw.components@[k]),
                forall|k: int|
                    0 <= k < i ==> (#[trigger] components@[k])@ == component_of(raw.components@[k]),
            decreases count - i,
        {
            let source = &raw_components[i];
            let whole = match coefficient_count(source.width_in_blocks, source.height_in_blocks) {
                Some(expected) => match &source.coefficients {
                    Some(coefficients) => coefficients.len() == expected,
                    None => false,
                },
                None => false,
            };
            if !whole {
                assert(!component_is_whole(raw.components@[i as int]));
                return Err(Error::new(
                    ErrorKind::Decode,
                    text("the C layer returned a component it cannot have"),
                ));
            }
            let coefficients = match &source.coefficients {
                Some(coefficients) => coefficients.clone(),
                None => Vec::new(),
            };
            components.push(
                Component {
                    id: source.id,
                    h_samp_factor: source.h_samp_factor,
                    v_samp_factor: source.v_samp_factor,
                    quant_table_slot: source.quant_table_slot,
                    width: source.width,
                    height: source.height,
                    width_in_blocks: source.width_in_blocks,
                    height_in_blocks: source.height_in_blocks,
                    quant_table: source.quant_table,
                    coefficients,
                },
            );
            i += 1;
        }
        Ok(
            Image {
                width,
                height,
                color_space,
                max_h_samp_factor,
                max_v_samp_factor,
                progressive: progressive != 0,
                arithmetic: arithmetic != 0,
                exif_orientation,
                warnings,
                components,
                icc_profile,
                warning,
            },
        )
    }
}


impl Image {
    /// Samples across.
    pub fn width(&self) -> (width: u32)
        ensures
            width == self@.width,
    {
        self.width
    }

    /// Rows.
    pub fn height(&self) -> (height: u32)
        ensures
            height == self@.height,
    {
        self.height
    }

    /// The color space of the components.
    pub fn color_space(&self) -> (space: ColorSpace)
        ensures
            space == self@.color_space,
    {
        self.color_space
    }

    /// The largest horizontal sampling factor.
    pub fn max_h_samp_factor(&self) -> (factor: i32)
        ensures
            factor == self@.max_h_samp_factor,
    {
        self.max_h_samp_factor
    }

    /// The largest vertical sampling factor.
    pub fn max_v_samp_factor(&self) -> (factor: i32)
        ensures
            factor == self@.max_v_samp_factor,
    {
        self.max_v_samp_factor
    }

    /// Whether the file is progressive.
    pub fn progressive(&self) -> (progressive: bool)
        ensures
            progressive == self@.progressive,
    {
        self.progressive
    }

    /// Whether the file is arithmetic-coded.
    pub fn arithmetic(&self) -> (arithmetic: bool)
        ensures
            arithmetic == self@.arithmetic,
    {
        self.arithmetic
    }

    /// 1 to 8 from the EXIF APP1 marker, or 0 when there is none.
    pub fn exif_orientation(&self) -> (orientation: i32)
        ensures
            orientation == self@.exif_orientation,
    {
        self.exif_orientation
    }

    /// Corrupt-data warnings libjpeg reported while reading.
    pub fn warnings(&self) -> (warnings: i32)
        ensures
            warnings == self@.warnings,
    {
        self.warnings
    }

    /// The first of those warnings, or an empty string.
    pub fn warning(&self) -> (warning: &str)
        ensures
            warning@ == self@.warning,
    {
        self.warning.as_str()
    }

    /// The components, one for grayscale and three otherwise.
    pub fn components(&self) -> (components: &[Component])
        ensures
            components@ == self@.components,
    {
        self.components.as_slice()
    }

    /// One component, when there is one of that index.
    pub fn component(&self, index: usize) -> (component: Option<&Component>)
        ensures
            match component {
                Some(component) => index < self@.components.len() && *component
                    == self@.components[index as int],
                None => index >= self@.components.len(),
            },
    {
        if index < self.components.len() {
            Some(&self.components[index])
        } else {
            None
        }
    }

    /// The ICC profile of the APP2 markers, when the file has one.
    pub fn icc_profile(&self) -> (profile: Option<&[u8]>)
        ensures
            match profile {
                Some(profile) => self@.icc_profile == Some(profile@),
                None => self@.icc_profile is None,
            },
    {
        match &self.icc_profile {
            Some(profile) => if profile.len() > 0 {
                Some(profile.as_slice())
            } else {
                None
            },
            None => None,
        }
    }
}

} // verus!
