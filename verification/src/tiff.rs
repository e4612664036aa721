//! Pictures in binary64, written as TIFF with 64-bit IEEE floating-point samples.
//!
//! The samples go into the file as they are, bit for bit: no conversion, no scaling,
//! and no compression that could change them. The file is baseline TIFF 6.0 in
//! little-endian byte order, one strip, with `SampleFormat` 3 (IEEE floating point)
//! and `BitsPerSample` 64. A sample is given here by its bits, as `f64::to_bits`
//! gives them: its eight bytes in the file are those bits, least significant byte
//! first, which is what `f64::to_le_bytes` writes.
//!
//! The three samples of a colour picture are R, G and B, or JFIF's Y, Cb and Cr,
//! which the file then declares: `PhotometricInterpretation` `YCbCr`, without
//! subsampling, with JFIF's coefficients and full range.
//!
//! A classic TIFF addresses at most 4 GiB, which is a little under 2^29 greyscale
//! samples in binary64.
use vstd::prelude::*;

use crate::error::{add_number, add_text, decimal, text, Error};

verus! {

pub const SHORT: u16 = 3;
pub const LONG: u16 = 4;
pub const RATIONAL: u16 = 5;
pub const HEADER: usize = 8;
pub const ENTRY: usize = 12;
/// The count of entries and the next IFD's offset, besides the entries.
pub const IFD: usize = 6;
/// The bytes that a classic TIFF addresses, `2^32`.
pub const LIMIT: u64 = 0x1_0000_0000;
pub const BITS: u16 = 64;
/// `SampleFormat`: IEEE floating point.
pub const IEEE: u16 = 3;
pub const BLACK_IS_ZERO: u16 = 1;
pub const RGB: u16 = 2;
pub const YCBCR: u16 = 6;

/// The two bytes of a 16-bit value, least significant first.
#[verifier::opaque]
pub open spec fn le16(value: int) -> Seq<u8> {
    seq![(value % 256) as u8, ((value / 256) % 256) as u8]
}

/// The four bytes of a 32-bit value, least significant first.
#[verifier::opaque]
pub open spec fn le32(value: int) -> Seq<u8> {
    le16(value % 0x1_0000) + le16((value / 0x1_0000) % 0x1_0000)
}

/// The eight bytes of a 64-bit value, least significant first.
#[verifier::opaque]
pub open spec fn le64(value: int) -> Seq<u8> {
    le32(value % 0x1_0000_0000) + le32((value / 0x1_0000_0000) % 0x1_0000_0000)
}

/// The lengths of the bytes of a value.
pub proof fn lemma_byte_lengths(value: int)
    ensures
        le16(value).len() == 2,
        le32(value).len() == 4,
        le64(value).len() == 8,
{
    reveal(le16);
    reveal(le32);
    reveal(le64);
}

/// 16-bit values, each as [`le16`], one after another.
pub open spec fn shorts_of(values: Seq<u16>) -> Seq<u8>
    decreases values.len(),
{
    if values.len() == 0 {
        Seq::empty()
    } else {
        shorts_of(values.drop_last()) + le16(values.last() as int)
    }
}

/// 32-bit values, each as [`le32`], one after another.
pub open spec fn longs_of(values: Seq<u32>) -> Seq<u8>
    decreases values.len(),
{
    if values.len() == 0 {
        Seq::empty()
    } else {
        longs_of(values.drop_last()) + le32(values.last() as int)
    }
}

/// 64-bit values, each as [`le64`], one after another.
pub open spec fn samples_of(values: Seq<u64>) -> Seq<u8>
    decreases values.len(),
{
    if values.len() == 0 {
        Seq::empty()
    } else {
        samples_of(values.drop_last()) + le64(values.last() as int)
    }
}

/// Byte strings, one after another.
pub open spec fn joined(parts: Seq<Seq<u8>>) -> Seq<u8>
    decreases parts.len(),
{
    if parts.len() == 0 {
        Seq::empty()
    } else {
        joined(parts.drop_last()) + parts.last()
    }
}

/// `count` zero bytes.
pub open spec fn zeros(count: int) -> Seq<u8> {
    Seq::new(count as nat, |i: int| 0u8)
}

/// An IFD entry whose value, of at most four bytes, is held in the entry itself,
/// padded with zeros.
#[verifier::opaque]
pub open spec fn entry_of(tag: int, kind: int, count: int, value: Seq<u8>) -> Seq<u8> {
    le16(tag) + le16(kind) + le32(count) + value + zeros(4 - value.len())
}

/// JFIF's `K_R`, `K_G` and `K_B`, as rationals.
pub open spec fn jfif_coefficients() -> Seq<u32> {
    seq![299u32, 1000, 587, 1000, 114, 1000]
}

/// The black and white of Y, Cb and Cr, full range, as rationals.
pub open spec fn full_range() -> Seq<u32> {
    seq![0u32, 1, 255, 1, 128, 1, 255, 1, 128, 1, 255, 1]
}

/// `BitsPerSample`, where there are several channels: 64 for each.
pub open spec fn tiff_bits(channels: int) -> Seq<u8> {
    if channels > 1 {
        shorts_of(Seq::new(channels as nat, |i: int| 64u16))
    } else {
        Seq::empty()
    }
}

/// `SampleFormat`, where there are several channels: IEEE for each.
pub open spec fn tiff_formats(channels: int) -> Seq<u8> {
    if channels > 1 {
        shorts_of(Seq::new(channels as nat, |i: int| 3u16))
    } else {
        Seq::empty()
    }
}

/// `XResolution` and `YResolution`: 1/1.
pub open spec fn tiff_resolution() -> Seq<u8> {
    longs_of(seq![1u32, 1])
}

/// `YCbCrCoefficients`, for Y, Cb and Cr.
pub open spec fn tiff_coefficients(ycbcr: bool) -> Seq<u8> {
    if ycbcr {
        longs_of(jfif_coefficients())
    } else {
        Seq::empty()
    }
}

/// `ReferenceBlackWhite`, for Y, Cb and Cr.
pub open spec fn tiff_reference(ycbcr: bool) -> Seq<u8> {
    if ycbcr {
        longs_of(full_range())
    } else {
        Seq::empty()
    }
}

/// The values that do not fit in an entry, one after another after the samples.
pub open spec fn tiff_values(channels: int, ycbcr: bool) -> Seq<u8> {
    tiff_bits(channels) + tiff_formats(channels) + tiff_resolution() + tiff_coefficients(ycbcr)
        + tiff_reference(ycbcr)
}

/// The bytes of the samples of a picture.
pub open spec fn data_length(height: int, width: int, channels: int) -> int {
    height * width * channels * 8
}

/// Where the values of `BitsPerSample` lie: after the header and the samples.
pub open spec fn bits_offset(height: int, width: int, channels: int) -> int {
    HEADER + data_length(height, width, channels)
}

/// Where the values of `SampleFormat` lie.
pub open spec fn format_offset(height: int, width: int, channels: int) -> int {
    bits_offset(height, width, channels) + tiff_bits(channels).len()
}

/// Where the resolution lies.
pub open spec fn resolution_offset(height: int, width: int, channels: int) -> int {
    format_offset(height, width, channels) + tiff_formats(channels).len()
}

/// Where JFIF's coefficients lie.
pub open spec fn coefficients_offset(height: int, width: int, channels: int) -> int {
    resolution_offset(height, width, channels) + tiff_resolution().len()
}

/// Where the full range lies.
pub open spec fn reference_offset(height: int, width: int, channels: int, ycbcr: bool) -> int {
    coefficients_offset(height, width, channels) + tiff_coefficients(ycbcr).len()
}

/// Where the values end.
pub open spec fn values_end(height: int, width: int, channels: int, ycbcr: bool) -> int {
    reference_offset(height, width, channels, ycbcr) + tiff_reference(ycbcr).len()
}

/// Where the IFD lies: on a word boundary after the values.
pub open spec fn ifd_offset(height: int, width: int, channels: int, ycbcr: bool) -> int {
    let end = values_end(height, width, channels, ycbcr);
    end + end % 2
}

/// The photometric interpretation: Y, Cb and Cr, RGB, or grey with black at 0.
pub open spec fn photometric(channels: int, ycbcr: bool) -> int {
    if ycbcr {
        YCBCR as int
    } else if channels > 1 {
        RGB as int
    } else {
        BLACK_IS_ZERO as int
    }
}

/// The entries of the IFD, in ascending order of their tags, as TIFF asks.
pub open spec fn tiff_entries(height: int, width: int, channels: int, ycbcr: bool) -> Seq<Seq<u8>> {
    let several = channels > 1;
    let base = seq![
        entry_of(256, LONG as int, 1, le32(width)),
        entry_of(257, LONG as int, 1, le32(height)),
        entry_of(
            258,
            SHORT as int,
            channels,
            if several {
                le32(bits_offset(height, width, channels))
            } else {
                le16(BITS as int)
            },
        ),
        entry_of(259, SHORT as int, 1, le16(1)),
        entry_of(262, SHORT as int, 1, le16(photometric(channels, ycbcr))),
        entry_of(273, LONG as int, 1, le32(HEADER as int)),
        entry_of(277, SHORT as int, 1, le16(channels)),
        entry_of(278, LONG as int, 1, le32(height)),
        entry_of(279, LONG as int, 1, le32(data_length(height, width, channels))),
        entry_of(282, RATIONAL as int, 1, le32(resolution_offset(height, width, channels))),
        entry_of(283, RATIONAL as int, 1, le32(resolution_offset(height, width, channels))),
        entry_of(284, SHORT as int, 1, le16(1)),
        entry_of(296, SHORT as int, 1, le16(1)),
        entry_of(
            339,
            SHORT as int,
            channels,
            if several {
                le32(format_offset(height, width, channels))
            } else {
                le16(IEEE as int)
            },
        ),
    ];
    if ycbcr {
        base + seq![
            entry_of(529, RATIONAL as int, 3, le32(coefficients_offset(height, width, channels))),
            entry_of(530, SHORT as int, 2, shorts_of(seq![1u16, 1])),
            entry_of(531, SHORT as int, 1, le16(1)),
            entry_of(532, RATIONAL as int, 6, le32(reference_offset(height, width, channels, ycbcr))),
        ]
    } else {
        base
    }
}

/// The count of the entries of the IFD.
pub open spec fn entry_count(ycbcr: bool) -> int {
    if ycbcr { 18 } else { 14 }
}

/// Where the file ends: after the IFD, its entries and the next IFD's offset, 0.
pub open spec fn file_end(height: int, width: int, channels: int, ycbcr: bool) -> int {
    ifd_offset(height, width, channels, ycbcr) + IFD + ENTRY * entry_count(ycbcr)
}

/// Whether the picture is one that a TIFF here holds: not empty, of 1 or 3 samples
/// to a pixel, of Y, Cb and Cr only in 3, and of as many samples as its size says.
pub open spec fn is_picture(samples: int, height: int, width: int, channels: int, ycbcr: bool) -> bool {
    &&& height > 0
    &&& width > 0
    &&& channels == 1 || channels == 3
    &&& samples == height * width * channels
    &&& ycbcr ==> channels == 3
}

/// The file of a picture: the header (`II`, 42 and where the IFD lies), the samples
/// bit for bit, the values that do not fit in an entry, a zero to a word boundary
/// where one is needed, the count of the entries, the entries, and 0 for no next IFD.
pub open spec fn tiff_file(samples: Seq<u64>, height: int, width: int, channels: int, ycbcr: bool) -> Seq<u8> {
    let ifd = ifd_offset(height, width, channels, ycbcr);
    let end = values_end(height, width, channels, ycbcr);
    seq![0x49u8, 0x49u8] + le16(42) + le32(ifd) + samples_of(samples) + tiff_values(channels, ycbcr)
        + zeros(ifd - end) + le16(entry_count(ycbcr)) + joined(
        tiff_entries(height, width, channels, ycbcr),
    ) + le32(0)
}

/// Appends the two bytes of a 16-bit value, least significant first.
fn push_u16(bytes: &mut Vec<u8>, value: u16)
    ensures
        final(bytes)@ == old(bytes)@ + le16(value as int),
{
    reveal(le16);
    bytes.push((value % 256) as u8);
    bytes.push((value / 256) as u8);
    assert(bytes@ =~= old(bytes)@ + le16(value as int));
}

/// Appends the four bytes of a 32-bit value, least significant first.
fn push_u32(bytes: &mut Vec<u8>, value: u32)
    ensures
        final(bytes)@ == old(bytes)@ + le32(value as int),
{
    reveal(le32);
    push_u16(bytes, (value % 0x1_0000) as u16);
    push_u16(bytes, (value / 0x1_0000) as u16);
    assert(bytes@ =~= old(bytes)@ + le32(value as int));
}

/// Appends the eight bytes of a 64-bit value, least significant first.
fn push_u64(bytes: &mut Vec<u8>, value: u64)
    ensures
        final(bytes)@ == old(bytes)@ + le64(value as int),
{
    reveal(le64);
    let low = (value % 0x1_0000_0000) as u32;
    let high = (value / 0x1_0000_0000) as u32;
    assert(high as int == (value as int / 0x1_0000_0000) % 0x1_0000_0000);
    assert(le64(value as int) == le32(low as int) + le32(high as int));
    let ghost before = bytes@;
    push_u32(bytes, low);
    push_u32(bytes, high);
    assert(bytes@ =~= before + le64(value as int));
}

/// Appends bytes.
fn push_all(bytes: &mut Vec<u8>, more: &[u8])
    ensures
        final(bytes)@ == old(bytes)@ + more@,
{
    let mut index: usize = 0;
    while index < more.len()
        invariant
            index <= more@.len(),
            bytes@ == old(bytes)@ + more@.take(index as int),
        decreases more@.len() - index,
    {
        bytes.push(more[index]);
        index = index + 1;
        assert(bytes@ =~= old(bytes)@ + more@.take(index as int));
    }
    assert(more@.take(more@.len() as int) =~= more@);
}

/// An IFD entry whose value, of at most four bytes, is held in the entry itself.
fn entry(tag: u16, kind: u16, count: u32, value: &[u8]) -> (bytes: Vec<u8>)
    requires
        value@.len() <= 4,
    ensures
        bytes@ == entry_of(tag as int, kind as int, count as int, value@),
{
    let mut bytes: Vec<u8> = Vec::with_capacity(ENTRY);
    push_u16(&mut bytes, tag);
    push_u16(&mut bytes, kind);
    push_u32(&mut bytes, count);
    push_all(&mut bytes, value);
    let ghost held = bytes@;
    let mut index = value.len();
    while index < 4
        invariant
            value@.len() <= index <= 4,
            bytes@ == held + zeros(index - value@.len()),
        decreases 4 - index,
    {
        bytes.push(0);
        index = index + 1;
        assert(bytes@ =~= held + zeros(index - value@.len()));
    }
    reveal(entry_of);
    assert(bytes@ =~= entry_of(tag as int, kind as int, count as int, value@));
    bytes
}

/// Why an offset is refused.
pub open spec fn offset_refusal(value: int) -> Seq<char> {
    "an offset of "@ + decimal(value as nat) + " does not fit a classic TIFF"@
}

/// Why a size is refused.
pub open spec fn size_refusal(value: int) -> Seq<char> {
    decimal(value as nat) + " does not fit a TIFF"@
}

/// The four bytes of an offset, which a classic TIFF holds in 32 bits.
fn offset(value: usize) -> (bytes: Result<Vec<u8>, Error>)
    ensures
        match bytes {
            Ok(bytes) => value <= u32::MAX && bytes@ == le32(value as int) && bytes@.len() == 4,
            Err(error) => {
                &&& value > u32::MAX
                &&& error matches Error::Options(message)
                &&& message@ == offset_refusal(value as int)
            },
        },
{
    if value as u64 > 0xFFFF_FFFF {
        let mut message = text("an offset of ");
        add_number(&mut message, value as u64);
        add_text(&mut message, " does not fit a classic TIFF");
        return Err(Error::Options(message));
    }
    let mut bytes: Vec<u8> = Vec::with_capacity(4);
    push_u32(&mut bytes, value as u32);
    proof {
        lemma_byte_lengths(value as int);
    }
    assert(bytes@ =~= le32(value as int));
    Ok(bytes)
}

/// A size, which a classic TIFF holds in 32 bits.
fn size(value: usize) -> (result: Result<u32, Error>)
    ensures
        match result {
            Ok(fitted) => fitted == value,
            Err(error) => {
                &&& value > u32::MAX
                &&& error matches Error::Options(message)
                &&& message@ == size_refusal(value as int)
            },
        },
{
    if value as u64 > 0xFFFF_FFFF {
        let mut message = String::new();
        add_number(&mut message, value as u64);
        add_text(&mut message, " does not fit a TIFF");
        return Err(Error::Options(message));
    }
    Ok(value as u32)
}

/// The two bytes of one 16-bit value, least significant first.
fn short(value: u16) -> (bytes: Vec<u8>)
    ensures
        bytes@ == le16(value as int),
        bytes@.len() == 2,
{
    let mut bytes: Vec<u8> = Vec::new();
    push_u16(&mut bytes, value);
    proof {
        lemma_byte_lengths(value as int);
    }
    assert(bytes@ =~= le16(value as int));
    bytes
}

/// The four bytes of one 32-bit value, least significant first.
fn long(value: u32) -> (bytes: Vec<u8>)
    ensures
        bytes@ == le32(value as int),
        bytes@.len() == 4,
{
    let mut bytes: Vec<u8> = Vec::new();
    push_u32(&mut bytes, value);
    proof {
        lemma_byte_lengths(value as int);
    }
    assert(bytes@ =~= le32(value as int));
    bytes
}

/// 16-bit values, least significant byte first, one after another.
fn shorts(values: &[u16]) -> (bytes: Vec<u8>)
    ensures
        bytes@ == shorts_of(values@),
{
    let mut bytes: Vec<u8> = Vec::new();
    let mut index: usize = 0;
    while index < values.len()
        invariant
            index <= values@.len(),
            bytes@ == shorts_of(values@.take(index as int)),
        decreases values@.len() - index,
    {
        push_u16(&mut bytes, values[index]);
        index = index + 1;
        assert(values@.take(index as int).drop_last() =~= values@.take(index - 1));
    }
    assert(values@.take(values@.len() as int) =~= values@);
    bytes
}

/// 32-bit values, least significant byte first, one after another.
fn longs(values: &[u32]) -> (bytes: Vec<u8>)
    ensures
        bytes@ == longs_of(values@),
{
    let mut bytes: Vec<u8> = Vec::new();
    let mut index: usize = 0;
    while index < values.len()
        invariant
            index <= values@.len(),
            bytes@ == longs_of(values@.take(index as int)),
        decreases values@.len() - index,
    {
        push_u32(&mut bytes, values[index]);
        index = index + 1;
        assert(values@.take(index as int).drop_last() =~= values@.take(index - 1));
    }
    assert(values@.take(values@.len() as int) =~= values@);
    bytes
}


/// `count` copies of a 16-bit value.
fn repeated(value: u16, count: usize) -> (values: Vec<u16>)
    ensures
        values@ == Seq::new(count as nat, |i: int| value),
{
    let mut values: Vec<u16> = Vec::with_capacity(count);
    while values.len() < count
        invariant
            values@.len() <= count,
            forall|i: int| 0 <= i < values@.len() ==> values@[i] == value,
        decreases count - values@.len(),
    {
        values.push(value);
    }
    assert(values@ =~= Seq::new(count as nat, |i: int| value));
    values
}

/// The byte strings of entries.
pub open spec fn entries_view(entries: Seq<Vec<u8>>) -> Seq<Seq<u8>> {
    entries.map_values(|bytes: Vec<u8>| bytes@)
}

/// Where the values that do not fit in an entry lie, and what the entries of the
/// file are.
struct Layout {
    values: Vec<u8>,
    ifd_offset: usize,
    entries: Vec<Vec<u8>>,
}

/// Whether every size and offset of the layout fits in the 32 bits of a classic
/// TIFF.
pub open spec fn layout_fits(height: int, width: int, channels: int, ycbcr: bool) -> bool {
    &&& width <= u32::MAX
    &&& height <= u32::MAX
    &&& channels > 1 ==> bits_offset(height, width, channels) <= u32::MAX
    &&& data_length(height, width, channels) <= u32::MAX
    &&& resolution_offset(height, width, channels) <= u32::MAX
    &&& channels > 1 ==> format_offset(height, width, channels) <= u32::MAX
    &&& ycbcr ==> coefficients_offset(height, width, channels) <= u32::MAX
    &&& ycbcr ==> reference_offset(height, width, channels, ycbcr) <= u32::MAX
}

/// Why a layout is refused: the first of its sizes and offsets, in the order of the
/// entries, that does not fit in 32 bits.
pub open spec fn layout_refusal(height: int, width: int, channels: int, ycbcr: bool) -> Seq<char> {
    if width > u32::MAX {
        size_refusal(width)
    } else if height > u32::MAX {
        size_refusal(height)
    } else if channels > 1 && bits_offset(height, width, channels) > u32::MAX {
        offset_refusal(bits_offset(height, width, channels))
    } else if data_length(height, width, channels) > u32::MAX {
        size_refusal(data_length(height, width, channels))
    } else if resolution_offset(height, width, channels) > u32::MAX {
        offset_refusal(resolution_offset(height, width, channels))
    } else if channels > 1 && format_offset(height, width, channels) > u32::MAX {
        offset_refusal(format_offset(height, width, channels))
    } else if ycbcr && coefficients_offset(height, width, channels) > u32::MAX {
        offset_refusal(coefficients_offset(height, width, channels))
    } else {
        offset_refusal(reference_offset(height, width, channels, ycbcr))
    }
}

/// Why a picture does not fit a classic TIFF.
pub open spec fn limit_refusal(height: int, width: int, channels: int) -> Seq<char> {
    "a picture of "@ + decimal(height as nat) + " x "@ + decimal(width as nat) + " x "@ + decimal(
        channels as nat,
    ) + " binary64 samples does not fit a classic TIFF"@
}

/// 16-bit values take two bytes each.
pub proof fn lemma_shorts_length(values: Seq<u16>)
    ensures
        shorts_of(values).len() == 2 * values.len(),
    decreases values.len(),
{
    if values.len() > 0 {
        lemma_shorts_length(values.drop_last());
        lemma_byte_lengths(values.last() as int);
    }
}

/// 32-bit values take four bytes each.
pub proof fn lemma_longs_length(values: Seq<u32>)
    ensures
        longs_of(values).len() == 4 * values.len(),
    decreases values.len(),
{
    if values.len() > 0 {
        lemma_longs_length(values.drop_last());
        lemma_byte_lengths(values.last() as int);
    }
}

/// The lengths of the values that do not fit in an entry.
proof fn lemma_value_lengths(channels: int, ycbcr: bool)
    requires
        channels == 1 || channels == 3,
    ensures
        tiff_bits(channels).len() == (if channels > 1 { 6int } else { 0 }),
        tiff_formats(channels).len() == (if channels > 1 { 6int } else { 0 }),
        tiff_resolution().len() == 8,
        tiff_coefficients(ycbcr).len() == (if ycbcr { 24int } else { 0 }),
        tiff_reference(ycbcr).len() == (if ycbcr { 48int } else { 0 }),
{
    lemma_shorts_length(Seq::new(channels as nat, |i: int| 64u16));
    lemma_shorts_length(Seq::new(channels as nat, |i: int| 3u16));
    lemma_longs_length(seq![1u32, 1]);
    lemma_longs_length(jfif_coefficients());
    lemma_longs_length(full_range());
}

/// The values that do not fit in an entry, and the entries of the IFD, of a
/// picture of `height x width x channels` samples.
fn layout(height: usize, width: usize, channels: usize, ycbcr: bool) -> (result: Result<Layout, Error>)
    requires
        channels == 1 || channels == 3,
        data_length(height as int, width as int, channels as int) + 1024 <= usize::MAX,
    ensures
        match result {
            Ok(layout) => {
                &&& layout_fits(height as int, width as int, channels as int, ycbcr)
                &&& layout.values@ == tiff_values(channels as int, ycbcr)
                &&& layout.ifd_offset == ifd_offset(height as int, width as int, channels as int, ycbcr)
                &&& entries_view(layout.entries@) == tiff_entries(
                    height as int,
                    width as int,
                    channels as int,
                    ycbcr,
                )
            },
            Err(error) => {
                &&& !layout_fits(height as int, width as int, channels as int, ycbcr)
                &&& error matches Error::Options(message)
                &&& message@ == layout_refusal(height as int, width as int, channels as int, ycbcr)
            },
        },
{
    let ghost h = height as int;
    let ghost w = width as int;
    let ghost ch = channels as int;
    proof {
        lemma_value_lengths(ch, ycbcr);
    }
    let data_length = height * width * channels * 8;
    let several = channels > 1;
    let count = channels as u16;
    let bits = if several { shorts(&repeated(BITS, channels)) } else { Vec::new() };
    let formats = if several { shorts(&repeated(IEEE, channels)) } else { Vec::new() };
    let resolution = longs(&[1u32, 1u32]);
    let coefficients = if ycbcr { longs(&[299u32, 1000, 587, 1000, 114, 1000]) } else { Vec::new() };
    let reference = if ycbcr {
        longs(&[0u32, 1, 255, 1, 128, 1, 255, 1, 128, 1, 255, 1])
    } else {
        Vec::new()
    };
    assert(bits@ == tiff_bits(ch));
    assert(formats@ == tiff_formats(ch));
    assert(coefficients@ == tiff_coefficients(ycbcr));
    assert(reference@ == tiff_reference(ycbcr));
    let bits_offset = HEADER + data_length;
    let format_offset = bits_offset + bits.len();
    let resolution_offset = format_offset + formats.len();
    let coefficients_offset = resolution_offset + resolution.len();
    let reference_offset = coefficients_offset + coefficients.len();
    let values_end = reference_offset + reference.len();
    let ifd_offset = values_end + values_end % 2;
    let photometric = if ycbcr {
        YCBCR
    } else if several {
        RGB
    } else {
        BLACK_IS_ZERO
    };
    let one = short(1);
    proof {
        lemma_shorts_length(seq![1u16, 1]);
    }
    let mut entries: Vec<Vec<u8>> = Vec::new();
    let width_bytes = size(width)?;
    entries.push(entry(256, LONG, 1, &long(width_bytes)));
    let height_bytes = size(height)?;
    entries.push(entry(257, LONG, 1, &long(height_bytes)));
    let held = if several { offset(bits_offset)? } else { short(BITS) };
    entries.push(entry(258, SHORT, count as u32, &held));
    entries.push(entry(259, SHORT, 1, &one));
    entries.push(entry(262, SHORT, 1, &short(photometric)));
    entries.push(entry(273, LONG, 1, &offset(HEADER)?));
    entries.push(entry(277, SHORT, 1, &short(count)));
    entries.push(entry(278, LONG, 1, &long(height_bytes)));
    let length_bytes = size(data_length)?;
    entries.push(entry(279, LONG, 1, &long(length_bytes)));
    let held = offset(resolution_offset)?;
    entries.push(entry(282, RATIONAL, 1, &held));
    entries.push(entry(283, RATIONAL, 1, &held));
    entries.push(entry(284, SHORT, 1, &one));
    entries.push(entry(296, SHORT, 1, &one));
    let held = if several { offset(format_offset)? } else { short(IEEE) };
    entries.push(entry(339, SHORT, count as u32, &held));
    if ycbcr {
        entries.push(entry(529, RATIONAL, 3, &offset(coefficients_offset)?));
        entries.push(entry(530, SHORT, 2, &shorts(&[1u16, 1u16])));
        entries.push(entry(531, SHORT, 1, &one));
        entries.push(entry(532, RATIONAL, 6, &offset(reference_offset)?));
    }
    let mut values: Vec<u8> = Vec::new();
    push_all(&mut values, &bits);
    push_all(&mut values, &formats);
    push_all(&mut values, &resolution);
    push_all(&mut values, &coefficients);
    push_all(&mut values, &reference);
    proof {
        reveal_with_fuel(shorts_of, 3);
        assert(values@ =~= tiff_values(ch, ycbcr));
        assert(entries_view(entries@) =~= tiff_entries(h, w, ch, ycbcr));
    }
    Ok(Layout { values, ifd_offset, entries })
}


/// The bytes of the samples: eight to a sample.
pub proof fn lemma_samples_length(samples: Seq<u64>)
    ensures
        samples_of(samples).len() == 8 * samples.len(),
    decreases samples.len(),
{
    if samples.len() > 0 {
        lemma_samples_length(samples.drop_last());
        lemma_byte_lengths(samples.last() as int);
    }
}

/// Within a classic TIFF, every size and offset of the layout fits in 32 bits.
proof fn lemma_fits_within_limit(height: int, width: int, channels: int, ycbcr: bool)
    requires
        height > 0,
        width > 0,
        channels == 1 || channels == 3,
        file_end(height, width, channels, ycbcr) <= LIMIT,
    ensures
        layout_fits(height, width, channels, ycbcr),
{
    lemma_value_lengths(channels, ycbcr);
    assert(width <= data_length(height, width, channels) && height <= data_length(
        height,
        width,
        channels,
    )) by (nonlinear_arith)
        requires
            height > 0,
            width > 0,
            channels > 0,
    ;
}

/// Whether `samples` are `height x width` pixels of 1 or 3 channels, not empty.
pub open spec fn picture_shape(samples: int, height: int, width: int, channels: int) -> bool {
    &&& height > 0
    &&& width > 0
    &&& channels == 1 || channels == 3
    &&& samples == height * width * channels
}

/// Why samples are not a picture of their shape.
pub open spec fn picture_refusal(height: int, width: int, channels: int, count: int) -> Seq<char> {
    "a picture is height x width x 1 or 3 samples, and not empty: "@ + decimal(height as nat) + " x "@
        + decimal(width as nat) + " x "@ + decimal(channels as nat) + ", "@ + decimal(count as nat)
        + " samples"@
}

/// Why Y, Cb and Cr are not the samples of a pixel.
pub open spec fn ycbcr_refusal(channels: int) -> Seq<char> {
    "Y, Cb and Cr are three samples to a pixel, not "@ + decimal(channels as nat)
}

/// The error of what is not a picture of that size, or not of 1 or 3 channels.
fn not_a_picture(height: usize, width: usize, channels: usize, count: usize) -> (error: Error)
    ensures
        error matches Error::Options(message) && message@ == picture_refusal(
            height as int,
            width as int,
            channels as int,
            count as int,
        ),
{
    let mut message = text("a picture is height x width x 1 or 3 samples, and not empty: ");
    add_number(&mut message, height as u64);
    add_text(&mut message, " x ");
    add_number(&mut message, width as u64);
    add_text(&mut message, " x ");
    add_number(&mut message, channels as u64);
    add_text(&mut message, ", ");
    add_number(&mut message, count as u64);
    add_text(&mut message, " samples");
    Error::Options(message)
}

/// The bytes of a TIFF of binary64 samples, given by their bits: `height x width`
/// pixels of `channels` samples each (1, or 3 interleaved), exactly as they are.
/// With `ycbcr`, the three samples of a pixel are JFIF's Y, Cb and Cr, and the file
/// says so.
///
/// # Errors
///
/// [`Error::Options`] for a picture that is empty, not of that size, not of 1 or 3
/// channels, of Y, Cb and Cr in other than 3 channels, or too large for a classic
/// TIFF.
pub fn float64(samples: &[u64], height: usize, width: usize, channels: usize, ycbcr: bool) -> (result:
    Result<Vec<u8>, Error>)
    requires
        height > 0 && width > 0 && (channels == 1 || channels == 3) ==> height * width * channels
            <= usize::MAX,
        8 * samples@.len() + 1024 <= usize::MAX,
    ensures
        match result {
            Ok(file) => {
                &&& is_picture(samples@.len() as int, height as int, width as int, channels as int, ycbcr)
                &&& file_end(height as int, width as int, channels as int, ycbcr) <= LIMIT
                &&& file@ == tiff_file(samples@, height as int, width as int, channels as int, ycbcr)
            },
            Err(error) => {
                &&& error matches Error::Options(message)
                &&& !(is_picture(samples@.len() as int, height as int, width as int, channels as int, ycbcr)
                    && file_end(height as int, width as int, channels as int, ycbcr) <= LIMIT)
                &&& if !picture_shape(samples@.len() as int, height as int, width as int, channels as int) {
                    message@ == picture_refusal(
                        height as int,
                        width as int,
                        channels as int,
                        samples@.len() as int,
                    )
                } else if ycbcr && channels != 3 {
                    message@ == ycbcr_refusal(channels as int)
                } else if !layout_fits(height as int, width as int, channels as int, ycbcr) {
                    message@ == layout_refusal(height as int, width as int, channels as int, ycbcr)
                } else {
                    &&& file_end(height as int, width as int, channels as int, ycbcr) > LIMIT
                    &&& message@ == limit_refusal(height as int, width as int, channels as int)
                }
            },
        },
{
    let ghost h = height as int;
    let ghost w = width as int;
    let ghost ch = channels as int;
    if height == 0 || width == 0 || !(channels == 1 || channels == 3) || samples.len() != height
        * width * channels {
        return Err(not_a_picture(height, width, channels, samples.len()));
    }
    if ycbcr && channels != 3 {
        let mut message = text("Y, Cb and Cr are three samples to a pixel, not ");
        add_number(&mut message, channels as u64);
        return Err(Error::Options(message));
    }
    proof {
        lemma_value_lengths(ch, ycbcr);
        if file_end(h, w, ch, ycbcr) <= LIMIT {
            lemma_fits_within_limit(h, w, ch, ycbcr);
        }
    }
    let Layout { values, ifd_offset, entries } = layout(height, width, channels, ycbcr)?;
    let ghost parts = entries_view(entries@);
    assert(parts.len() == entry_count(ycbcr));
    if ifd_offset as u64 + IFD as u64 + ENTRY as u64 * entries.len() as u64 > LIMIT {
        let mut message = text("a picture of ");
        add_number(&mut message, height as u64);
        add_text(&mut message, " x ");
        add_number(&mut message, width as u64);
        add_text(&mut message, " x ");
        add_number(&mut message, channels as u64);
        add_text(&mut message, " binary64 samples does not fit a classic TIFF");
        return Err(Error::Options(message));
    }
    let mut file: Vec<u8> = Vec::with_capacity(ifd_offset + IFD + ENTRY * entries.len());
    file.push(0x49);
    file.push(0x49);
    push_u16(&mut file, 42);
    let ifd_bytes = offset(ifd_offset)?;
    push_all(&mut file, &ifd_bytes);
    let ghost header = file@;
    assert(header =~= seq![0x49u8, 0x49u8] + le16(42) + le32(ifd_offset as int));
    let mut index: usize = 0;
    while index < samples.len()
        invariant
            index <= samples@.len(),
            file@ == header + samples_of(samples@.take(index as int)),
        decreases samples@.len() - index,
    {
        push_u64(&mut file, samples[index]);
        index = index + 1;
        assert(samples@.take(index as int).drop_last() =~= samples@.take(index - 1));
    }
    assert(samples@.take(samples@.len() as int) =~= samples@);
    push_all(&mut file, &values);
    let ghost with_values = file@;
    proof {
        lemma_samples_length(samples@);
        lemma_byte_lengths(42);
        lemma_byte_lengths(ifd_offset as int);
    }
    assert(with_values.len() == values_end(h, w, ch, ycbcr));
    while file.len() < ifd_offset
        invariant
            with_values.len() <= file@.len() <= ifd_offset,
            file@ == with_values + zeros(file@.len() - with_values.len()),
        decreases ifd_offset - file@.len(),
    {
        file.push(0);
        assert(file@ =~= with_values + zeros(file@.len() - with_values.len()));
    }
    push_u16(&mut file, entries.len() as u16);
    let ghost listed = file@;
    let mut index: usize = 0;
    while index < entries.len()
        invariant
            index <= entries@.len(),
            parts == entries_view(entries@),
            file@ == listed + joined(parts.take(index as int)),
        decreases entries@.len() - index,
    {
        push_all(&mut file, &entries[index]);
        index = index + 1;
        assert(parts.take(index as int).drop_last() =~= parts.take(index - 1));
    }
    assert(parts.take(parts.len() as int) =~= parts);
    push_u32(&mut file, 0);
    Ok(file)
}


/// Sample `i` is bytes `8 i` to `8 i + 8` of the samples' bytes.
pub proof fn lemma_sample_bytes(samples: Seq<u64>, i: int)
    requires
        0 <= i < samples.len(),
    ensures
        samples_of(samples).subrange(8 * i, 8 * i + 8) == le64(samples[i] as int),
    decreases samples.len(),
{
    let rest = samples.drop_last();
    lemma_samples_length(rest);
    lemma_byte_lengths(samples.last() as int);
    if i < samples.len() - 1 {
        lemma_sample_bytes(rest, i);
        lemma_samples_length(rest);
        assert(samples_of(samples).subrange(8 * i, 8 * i + 8) == samples_of(rest).subrange(8 * i, 8 * i + 8));
    } else {
        assert(samples_of(samples).subrange(8 * i, 8 * i + 8) == le64(samples.last() as int));
    }
}

/// A file holds its samples bit for bit: sample `i` is the eight bytes at `8 + 8 i`,
/// least significant first, whatever the picture.
pub proof fn lemma_sample_in_file(samples: Seq<u64>, height: int, width: int, channels: int, ycbcr: bool, i: int)
    requires
        0 <= i < samples.len(),
    ensures
        tiff_file(samples, height, width, channels, ycbcr).subrange(8 + 8 * i, 16 + 8 * i) == le64(
            samples[i] as int,
        ),
{
    let ifd = ifd_offset(height, width, channels, ycbcr);
    let header = seq![0x49u8, 0x49u8] + le16(42) + le32(ifd);
    lemma_byte_lengths(42);
    lemma_byte_lengths(ifd);
    assert(header.len() == 8);
    lemma_samples_length(samples);
    lemma_sample_bytes(samples, i);
    let file = tiff_file(samples, height, width, channels, ycbcr);
    let body = samples_of(samples);
    assert(file.subrange(0, 8 + body.len() as int) == header + body);
    assert(file.subrange(8 + 8 * i, 16 + 8 * i) == (header + body).subrange(8 + 8 * i, 16 + 8 * i));
    assert((header + body).subrange(8 + 8 * i, 16 + 8 * i) == body.subrange(8 * i, 8 * i + 8));
}

} // verus!
