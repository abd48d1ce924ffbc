//! The Anvil region container.
//!
//! A region image is a sequence of 4096-byte sectors. Sector 0 is the
//! location table: one 4-byte big-endian word for each of the 1024 slots,
//! 24 bits of sector offset and 8 bits of sector count, zero for an empty
//! slot. Sector 1 holds a 4-byte big-endian timestamp for each slot. From
//! sector 2 on stand the chunks: a 4-byte big-endian length, one byte that
//! names the compression, then the compressed payload. A chunk too large for
//! 255 sectors keeps only its header in the image and has its payload in a
//! file of its own beside the region file.
//!
//! This module works on the image in memory. It never touches a file: where a
//! file beside the region has to be read, written or removed, it says so in
//! what it returns, and the caller does it.

use crate::bytes::{
    be_u32, lemma_read_appended, lemma_read_before, lemma_read_beside, lemma_read_written,
    lemma_signed_round_trip, overwrite, read_u32, signed32, to_signed, to_unsigned, u32_be_bytes,
    unsigned32, write_u32,
};
use crate::codec::{
    gzip_decode, gzip_decoded, lz4_decode, lz4_decoded, zlib_decode, zlib_decoded, zlib_encode,
    zlib_encoded,
};
use vstd::prelude::*;
use vstd::slice::slice_subrange;
use vstd::slice::slice_to_vec;
use vstd::string::StrSliceExecFns;
use vstd::string::StringSliceAdditionalSpecFns;

verus! {

/// Bytes in a sector.
pub const SECTOR_SIZE: usize = 4096;

/// Slots in a region.
pub const MAX_CHUNK_NUM: usize = 1024;

/// Compression tag of a gzip member.
pub const COMPRESSION_KIND_GZIP: u8 = 1;

/// Compression tag of a zlib stream.
pub const COMPRESSION_KIND_ZLIB: u8 = 2;

/// Compression tag of an uncompressed payload.
pub const COMPRESSION_KIND_RAW: u8 = 3;

/// Compression tag of an LZ4 frame.
pub const COMPRESSION_KIND_LZ4: u8 = 4;

/// Added to the compression tag of a chunk whose payload is in a file of its
/// own.
pub const COMPRESSION_EXTERNAL: u8 = 128;

/// Why a region, or one chunk of it, could not be read or written.
#[derive(Debug, Clone, Copy, PartialEq, Eq, Structural)]
pub enum AnvilError {
    /// The image is shorter than two sectors.
    InvalidFileSize,
    /// The sectors that a slot names do not lie within the image.
    InvalidSectorCount,
    /// The length in a chunk's header is zero or reaches past the image.
    InvalidChunkLength,
    /// The compression tag is none of the four known.
    UnknownCompression,
    /// The region's file name is not of the form `r.<rx>.<rz>.mca`.
    InvalidFileName,
    /// The first coordinate in the region's file name is no number, or the
    /// chunk's first global coordinate is out of range.
    InvalidXCoordinate,
    /// The second coordinate in the region's file name is no number, or the
    /// chunk's second global coordinate is out of range.
    InvalidZCoordinate,
    /// The payload is no gzip member.
    Gzip,
    /// The payload is no zlib stream.
    Zlib,
    /// The payload could not be read as an LZ4 frame.
    Lz4,
    /// The payload could not be compressed.
    Compress,
    /// The image has no room left for another chunk.
    RegionFull,
}

impl AnvilError {
    /// A short description of the error.
    pub fn message(&self) -> (r: &'static str)
        ensures
            r@ == self.message_text(),
    {
        match self {
            AnvilError::InvalidFileSize => "Invalid file size",
            AnvilError::InvalidSectorCount => "Invalid sector count",
            AnvilError::InvalidChunkLength => "Invalid chunk length",
            AnvilError::UnknownCompression => "Unknown compression type",
            AnvilError::InvalidFileName => "Invalid file name",
            AnvilError::InvalidXCoordinate => "Invalid x coordinate",
            AnvilError::InvalidZCoordinate => "Invalid z coordinate",
            AnvilError::Gzip => "Uncompressing Gzip",
            AnvilError::Zlib => "Uncompressing Zlib",
            AnvilError::Lz4 => "Uncompressing lz4",
            AnvilError::Compress => "Compressing Zlib",
            AnvilError::RegionFull => "Region is full",
        }
    }

    /// The text of `message`.
    pub open spec fn message_text(&self) -> Seq<char> {
        match self {
            AnvilError::InvalidFileSize => "Invalid file size"@,
            AnvilError::InvalidSectorCount => "Invalid sector count"@,
            AnvilError::InvalidChunkLength => "Invalid chunk length"@,
            AnvilError::UnknownCompression => "Unknown compression type"@,
            AnvilError::InvalidFileName => "Invalid file name"@,
            AnvilError::InvalidXCoordinate => "Invalid x coordinate"@,
            AnvilError::InvalidZCoordinate => "Invalid z coordinate"@,
            AnvilError::Gzip => "Uncompressing Gzip"@,
            AnvilError::Zlib => "Uncompressing Zlib"@,
            AnvilError::Lz4 => "Uncompressing lz4"@,
            AnvilError::Compress => "Compressing Zlib"@,
            AnvilError::RegionFull => "Region is full"@,
        }
    }
}

/// The ASCII full stop.
pub const DOT: u8 = 0x2e;

/// The ASCII hyphen-minus.
pub const MINUS: u8 = 0x2d;

/// The ASCII plus sign.
pub const PLUS: u8 = 0x2b;

/// `c` is one of `0`..`9`.
pub open spec fn is_decimal_digit(c: u8) -> bool {
    0x30 <= c && c <= 0x39
}

/// Every byte of `s` is a decimal digit.
pub open spec fn all_decimal_digits(s: Seq<u8>) -> bool {
    forall|i: int| 0 <= i < s.len() ==> is_decimal_digit(#[trigger] s[i])
}

/// The number that the decimal digits `s` spell.
pub open spec fn digits_value(s: Seq<u8>) -> nat
    decreases s.len(),
{
    if s.len() == 0 {
        0
    } else {
        digits_value(s.drop_last()) * 10 + (s.last() - 0x30) as nat
    }
}

/// The 64-bit signed number that `s` spells in decimal: an optional sign
/// and at least one digit. Nothing, where `s` is not of that form or the
/// number does not fit.
pub open spec fn signed_decimal(s: Seq<u8>) -> Option<int> {
    if s.len() == 0 {
        None
    } else {
        let digits = if s[0] == MINUS || s[0] == PLUS {
            s.subrange(1, s.len() as int)
        } else {
            s
        };
        let value = if s[0] == MINUS {
            -(digits_value(digits) as int)
        } else {
            digits_value(digits) as int
        };
        if digits.len() == 0 || !all_decimal_digits(digits) || value < i64::MIN || value
            > i64::MAX {
            None
        } else {
            Some(value)
        }
    }
}

/// The number of bytes of `s` before its first full stop, or its length
/// where it has none.
pub open spec fn first_dot(s: Seq<u8>) -> int
    decreases s.len(),
{
    if s.len() == 0 || s[0] == DOT {
        0
    } else {
        1 + first_dot(s.subrange(1, s.len() as int))
    }
}

/// The field of index `k` of `s`, where full stops part the fields.
pub open spec fn dot_field(s: Seq<u8>, k: nat) -> Option<Seq<u8>>
    decreases k,
{
    let d = first_dot(s);
    if k == 0 {
        Some(s.subrange(0, d))
    } else if d >= s.len() {
        None
    } else {
        dot_field(s.subrange(d + 1, s.len() as int), (k - 1) as nat)
    }
}

/// The decimal digits of `n`.
pub open spec fn decimal_digits(n: nat) -> Seq<u8>
    decreases n,
{
    if n < 10 {
        seq![(0x30 + n) as u8]
    } else {
        decimal_digits(n / 10).push((0x30 + n % 10) as u8)
    }
}

/// `v` in decimal, with a minus sign where it is negative.
pub open spec fn decimal(v: int) -> Seq<u8> {
    if v < 0 {
        seq![MINUS] + decimal_digits((-v) as nat)
    } else {
        decimal_digits(v as nat)
    }
}

/// The name `c.<x>.<z>.mcc` of the file that holds the payload of the chunk
/// at the global coordinates `x`, `z`.
pub open spec fn mcc_name(x: int, z: int) -> Seq<u8> {
    seq![0x63u8, DOT] + decimal(x) + seq![DOT] + decimal(z) + seq![DOT, 0x6du8, 0x63u8, 0x63u8]
}

/// The bytes of `r`.
pub open spec fn region_prefix() -> Seq<u8> {
    seq![0x72u8]
}

/// The bytes of `mca`.
pub open spec fn region_extension() -> Seq<u8> {
    seq![0x6du8, 0x63u8, 0x61u8]
}

/// `name` has the form of the name of a region file: four fields, of which
/// the first is `r` and the last is `mca`.
pub open spec fn is_region_name(name: Seq<u8>) -> bool {
    &&& dot_field(name, 0) == Some(region_prefix())
    &&& dot_field(name, 3) == Some(region_extension())
    &&& dot_field(name, 4) is None
}

/// The name of the file beside the region file `name` that holds the
/// payload of the chunk at `local`. The name of the region file must be
/// `r.<rx>.<rz>.mca`, with its coordinates `rx`, `rz` in decimal; the chunk's
/// global coordinates are 32 times these plus its own.
pub open spec fn external_name(name: Seq<u8>, local: (i32, i32)) -> Result<Seq<u8>, AnvilError> {
    let rx = match dot_field(name, 1) {
        Some(f) => signed_decimal(f),
        None => None,
    };
    let rz = match dot_field(name, 2) {
        Some(f) => signed_decimal(f),
        None => None,
    };
    if !is_region_name(name) {
        Err(AnvilError::InvalidFileName)
    } else if rx is None {
        Err(AnvilError::InvalidXCoordinate)
    } else if rz is None {
        Err(AnvilError::InvalidZCoordinate)
    } else if rx->0 * 32 + local.0 < i64::MIN || rx->0 * 32 + local.0 > i64::MAX {
        Err(AnvilError::InvalidXCoordinate)
    } else if rz->0 * 32 + local.1 < i64::MIN || rz->0 * 32 + local.1 > i64::MAX {
        Err(AnvilError::InvalidZCoordinate)
    } else {
        Ok(mcc_name(rx->0 * 32 + local.0, rz->0 * 32 + local.1))
    }
}

/// A number read so far does not shrink when more digits follow.
proof fn lemma_digits_value_grows(s: Seq<u8>, i: int)
    requires
        0 <= i <= s.len(),
        all_decimal_digits(s),
    ensures
        digits_value(s.subrange(0, i)) <= digits_value(s),
    decreases s.len() - i,
{
    if i < s.len() {
        lemma_digits_value_grows(s, i + 1);
        let t = s.subrange(0, i + 1);
        assert(t.drop_last() == s.subrange(0, i));
        assert(is_decimal_digit(s[i]));
    } else {
        assert(s.subrange(0, i) == s);
    }
}

/// Reads `s` as a signed decimal number of 64 bits.
pub fn parse_decimal(s: &[u8]) -> (r: Option<i64>)
    ensures
        match r {
            Some(v) => signed_decimal(s@) == Some(v as int),
            None => signed_decimal(s@) is None,
        },
{
    let len: usize = s.len();
    if len == 0 {
        return None;
    }
    let negative = s[0] == MINUS;
    let first: usize = if s[0] == MINUS || s[0] == PLUS {
        1
    } else {
        0
    };
    if first == len {
        return None;
    }
    let ghost digits = s@.subrange(first as int, len as int);
    proof {
        if first == 0 {
            assert(digits == s@);
        }
    }
    let mut acc: i128 = 0;
    let mut i: usize = first;
    while i < len
        invariant
            first <= i <= len == s@.len(),
            len > 0,
            negative == (s@[0] == MINUS),
            first == if s@[0] == MINUS || s@[0] == PLUS { 1int } else { 0int },
            digits == s@.subrange(first as int, len as int),
            all_decimal_digits(digits.subrange(0, i - first)),
            acc == digits_value(digits.subrange(0, i - first)),
            0 <= acc <= 0x8000_0000_0000_0000,
        decreases len - i,
    {
        let c = s[i];
        if !(0x30 <= c && c <= 0x39) {
            proof {
                assert(digits[i - first] == c);
                if first == 0 {
                    assert(digits == s@);
                }
            }
            return None;
        }
        proof {
            let t = digits.subrange(0, i + 1 - first);
            assert(t.drop_last() == digits.subrange(0, i - first));
            assert(t.last() == c);
            assert forall|j: int| 0 <= j < t.len() implies is_decimal_digit(#[trigger] t[j]) by {
                if j < i - first {
                    assert(t[j] == digits.subrange(0, i - first)[j]);
                }
            }
        }
        acc = acc * 10 + (c - 0x30) as i128;
        if acc > 0x8000_0000_0000_0000 {
            proof {
                let rest = digits.subrange(0, i + 1 - first);
                if all_decimal_digits(digits) {
                    lemma_digits_value_grows(digits, i + 1 - first);
                }
                if first == 0 {
                    assert(digits == s@);
                }
            }
            return None;
        }
        i += 1;
    }
    proof {
        assert(digits.subrange(0, i - first) == digits);
        if first == 0 {
            assert(digits == s@);
        }
    }
    if negative {
        Some((-acc) as i64)
    } else if acc == 0x8000_0000_0000_0000 {
        None
    } else {
        Some(acc as i64)
    }
}

/// Appends the decimal digits of `n` to `out`.
fn push_digits(out: &mut Vec<u8>, n: u64)
    ensures
        final(out)@ == old(out)@ + decimal_digits(n as nat),
    decreases n,
{
    if n >= 10 {
        push_digits(out, n / 10);
    }
    out.push(0x30 + (n % 10) as u8);
}

/// Appends `v` in decimal to `out`.
fn push_decimal(out: &mut Vec<u8>, v: i64)
    ensures
        final(out)@ == old(out)@ + decimal(v as int),
{
    if v < 0 {
        out.push(MINUS);
        let magnitude: u64 = if v == i64::MIN {
            0x8000_0000_0000_0000
        } else {
            (-v) as u64
        };
        push_digits(out, magnitude);
    } else {
        push_digits(out, v as u64);
    }
}

/// The end of the field of `name` that starts at `from`: the index of the
/// next full stop, or the length of `name`.
fn field_end(name: &[u8], from: usize) -> (end: usize)
    requires
        from <= name@.len(),
    ensures
        from <= end <= name@.len(),
        end - from == first_dot(name@.subrange(from as int, name@.len() as int)),
{
    let len: usize = name.len();
    let mut end: usize = from;
    while end < len && name[end] != DOT
        invariant
            from <= end <= len == name@.len(),
            first_dot(name@.subrange(from as int, len as int)) == end - from + first_dot(
                name@.subrange(end as int, len as int),
            ),
        decreases len - end,
    {
        proof {
            let rest = name@.subrange(end as int, len as int);
            assert(rest.subrange(1, rest.len() as int) == name@.subrange(end + 1, len as int));
        }
        end += 1;
    }
    end
}

/// The bounds of the field of index `k` of `name`.
fn nth_field(name: &[u8], k: usize) -> (r: Option<(usize, usize)>)
    ensures
        match r {
            Some((from, to)) => from <= to <= name@.len() && dot_field(name@, k as nat) == Some(
                name@.subrange(from as int, to as int),
            ),
            None => dot_field(name@, k as nat) is None,
        },
{
    let len: usize = name.len();
    let mut start: usize = 0;
    let mut i: usize = 0;
    proof {
        assert(name@.subrange(0, len as int) == name@);
    }
    while i < k
        invariant
            i <= k,
            start <= len == name@.len(),
            dot_field(name@, k as nat) == dot_field(
                name@.subrange(start as int, len as int),
                (k - i) as nat,
            ),
        decreases k - i,
    {
        let end = field_end(name, start);
        if end >= len {
            return None;
        }
        proof {
            let rest = name@.subrange(start as int, len as int);
            assert(rest.subrange(end - start + 1, rest.len() as int) == name@.subrange(
                end + 1,
                len as int,
            ));
        }
        start = end + 1;
        i += 1;
    }
    let end = field_end(name, start);
    proof {
        let rest = name@.subrange(start as int, len as int);
        assert(rest.subrange(0, end - start) == name@.subrange(start as int, end as int));
    }
    Some((start, end))
}

/// The field is `r`.
fn is_prefix(field: &[u8]) -> (r: bool)
    ensures
        r == (field@ == region_prefix()),
{
    let r = field.len() == 1 && field[0] == 0x72;
    proof {
        if r {
            assert(field@ =~= region_prefix());
        } else if field@.len() == 1 {
            assert(region_prefix()[0] == 0x72);
        }
    }
    r
}

/// The field is `mca`.
fn is_extension(field: &[u8]) -> (r: bool)
    ensures
        r == (field@ == region_extension()),
{
    let r = field.len() == 3 && field[0] == 0x6d && field[1] == 0x63 && field[2] == 0x61;
    proof {
        if r {
            assert(field@ =~= region_extension());
        } else if field@.len() == 3 {
            assert(region_extension()[0] == 0x6d && region_extension()[1] == 0x63
                && region_extension()[2] == 0x61);
        }
    }
    r
}

/// One chunk of a region.
#[derive(Debug)]
pub struct Chunk {
    /// Whether the payload came from a file of its own beside the region
    /// file. When such a chunk is written back into the image, that file is
    /// to be removed.
    pub external: bool,
    /// The chunk's place in its region, each coordinate from 0 to 31.
    pub location: (i32, i32),
    /// Seconds, as the region's timestamp table holds them.
    pub timestamp: i32,
    /// The payload, uncompressed.
    pub uncompressed: Vec<u8>,
}

/// A chunk whose payload stands in a file of its own: what the region image
/// says of it, and the name of that file beside the region file.
#[derive(Debug)]
pub struct ExternalChunk {
    /// The name of the file that holds the compressed payload.
    pub name: Vec<u8>,
    /// The compression tag, without the mark of external storage.
    pub kind: u8,
    /// The chunk's place in its region.
    pub location: (i32, i32),
    /// The chunk's timestamp.
    pub timestamp: i32,
}

/// What reading a slot gives.
#[derive(Debug)]
pub enum SlotRead {
    /// The chunk, read from the image.
    Loaded(Chunk),
    /// The chunk's payload is in a file of its own, which is to be read
    /// and handed to `ExternalChunk::load`.
    Pending(ExternalChunk),
}

/// What is to be done with the file that holds a chunk's payload outside
/// the image, after the chunk was written.
#[derive(Debug)]
pub enum ExternalAction {
    /// Nothing.
    Keep,
    /// The file `name` is to be written with `data`.
    Store { name: Vec<u8>, data: Vec<u8> },
    /// The file `name` is to be removed.
    Remove { name: Vec<u8> },
}

/// An `ExternalAction` as contracts see it.
pub enum ExternalActionView {
    Keep,
    Store { name: Seq<u8>, data: Seq<u8> },
    Remove { name: Seq<u8> },
}

impl View for ExternalAction {
    type V = ExternalActionView;

    open spec fn view(&self) -> ExternalActionView {
        match self {
            ExternalAction::Keep => ExternalActionView::Keep,
            ExternalAction::Store { name, data } => ExternalActionView::Store {
                name: name@,
                data: data@,
            },
            ExternalAction::Remove { name } => ExternalActionView::Remove { name: name@ },
        }
    }
}

/// The slot of the chunk at `location`.
pub open spec fn slot_of(location: (i32, i32)) -> int {
    location.1 * 32 + location.0
}

/// The place in its region of the chunk in `slot`.
pub open spec fn location_of(slot: int) -> (i32, i32) {
    ((slot % 32) as i32, (slot / 32 % 32) as i32)
}

/// `location` is a place in a region: both coordinates from 0 to 31.
pub open spec fn in_region(location: (i32, i32)) -> bool {
    0 <= location.0 < 32 && 0 <= location.1 < 32
}

/// The location word of `slot`.
pub open spec fn location_word(image: Seq<u8>, slot: int) -> int {
    be_u32(image, slot * 4)
}

/// `slot` holds a chunk.
pub open spec fn populated(image: Seq<u8>, slot: int) -> bool {
    location_word(image, slot) != 0
}

/// The number of the sector where the chunk in `slot` starts.
pub open spec fn slot_offset(image: Seq<u8>, slot: int) -> int {
    location_word(image, slot) / 256
}

/// The number of sectors that the chunk in `slot` takes.
pub open spec fn slot_sectors(image: Seq<u8>, slot: int) -> int {
    location_word(image, slot) % 256
}

/// The timestamp of `slot`.
pub open spec fn slot_timestamp(image: Seq<u8>, slot: int) -> int {
    signed32(be_u32(image, 4096 + slot * 4))
}

/// The sectors that `slot` names lie within the image.
pub open spec fn slot_in_bounds(image: Seq<u8>, slot: int) -> bool {
    (slot_offset(image, slot) + slot_sectors(image, slot)) * 4096 <= image.len()
}

/// The image is made of whole sectors, at least two, and the sectors of
/// every populated slot lie within it.
pub open spec fn valid_region(image: Seq<u8>) -> bool {
    &&& whole_sectors(image)
    &&& forall|slot: int|
        0 <= slot < 1024 && populated(image, slot) ==> #[trigger] slot_in_bounds(image, slot)
}

/// What the image holds of the chunk in a slot.
pub enum Stored {
    /// The compression tag and the compressed payload.
    Inline { kind: u8, data: Seq<u8> },
    /// The compression tag of a payload that is held outside the image.
    Outside { kind: u8 },
}

/// What the image holds of the chunk in `slot`, or why it cannot be read.
pub open spec fn stored(image: Seq<u8>, slot: int) -> Result<Stored, AnvilError> {
    let start = slot_offset(image, slot) * 4096;
    let length = be_u32(image, start);
    if !slot_in_bounds(image, slot) {
        Err(AnvilError::InvalidSectorCount)
    } else if start + 4 > image.len() || length < 1 || start + length + 4 > image.len() {
        Err(AnvilError::InvalidChunkLength)
    } else if image[start + 4] >= COMPRESSION_EXTERNAL {
        Ok(Stored::Outside { kind: (image[start + 4] - COMPRESSION_EXTERNAL) as u8 })
    } else {
        Ok(
            Stored::Inline {
                kind: image[start + 4],
                data: image.subrange(start + 5, start + 4 + length),
            },
        )
    }
}

/// `r` is what a payload `data` with the compression tag `kind` may
/// decompress to. For gzip, zlib and raw payloads and for an unknown tag
/// there is one such `r`.
pub open spec fn decompressed(kind: u8, data: Seq<u8>, r: Result<Seq<u8>, AnvilError>) -> bool {
    if kind == COMPRESSION_KIND_GZIP {
        r == match gzip_decoded(data) {
            Some(v) => Ok::<Seq<u8>, AnvilError>(v),
            None => Err(AnvilError::Gzip),
        }
    } else if kind == COMPRESSION_KIND_ZLIB {
        r == match zlib_decoded(data) {
            Some(v) => Ok::<Seq<u8>, AnvilError>(v),
            None => Err(AnvilError::Zlib),
        }
    } else if kind == COMPRESSION_KIND_RAW {
        r == Ok::<Seq<u8>, AnvilError>(data)
    } else if kind == COMPRESSION_KIND_LZ4 {
        r == Ok::<Seq<u8>, AnvilError>(lz4_decoded(data)) || r == Err::<Seq<u8>, AnvilError>(
            AnvilError::Lz4,
        )
    } else {
        r == Err::<Seq<u8>, AnvilError>(AnvilError::UnknownCompression)
    }
}

/// The bytes in `r`, as a sequence.
pub open spec fn payload_of(r: Result<Vec<u8>, AnvilError>) -> Result<Seq<u8>, AnvilError> {
    match r {
        Ok(v) => Ok(v@),
        Err(e) => Err(e),
    }
}

/// What a decoder returned, with the decoder's error replaced by `failure`.
pub fn decoder_outcome(outcome: Result<Vec<u8>, std::io::Error>, failure: AnvilError) -> (r: Result<
    Vec<u8>,
    AnvilError,
>)
    ensures
        match outcome {
            Ok(v) => r == Ok::<Vec<u8>, AnvilError>(v),
            Err(_) => r == Err::<Vec<u8>, AnvilError>(failure),
        },
{
    match outcome {
        Ok(v) => Ok(v),
        Err(_) => Err(failure),
    }
}

/// Decompresses a payload by its compression tag.
pub fn decompress(kind: u8, data: &[u8]) -> (r: Result<Vec<u8>, AnvilError>)
    ensures
        decompressed(kind, data@, payload_of(r)),
{
    if kind == COMPRESSION_KIND_GZIP {
        decoder_outcome(gzip_decode(data), AnvilError::Gzip)
    } else if kind == COMPRESSION_KIND_ZLIB {
        decoder_outcome(zlib_decode(data), AnvilError::Zlib)
    } else if kind == COMPRESSION_KIND_RAW {
        Ok(slice_to_vec(data))
    } else if kind == COMPRESSION_KIND_LZ4 {
        decoder_outcome(lz4_decode(data), AnvilError::Lz4)
    } else {
        Err(AnvilError::UnknownCompression)
    }
}

/// `r` is a chunk at `location` with `timestamp` whose payload is what
/// `data` with the tag `kind` decompresses to, or the error of
/// decompressing it.
pub open spec fn chunk_from(
    external: bool,
    location: (i32, i32),
    timestamp: i32,
    kind: u8,
    data: Seq<u8>,
    r: Result<Chunk, AnvilError>,
) -> bool {
    match r {
        Ok(chunk) => {
            &&& chunk.external == external
            &&& chunk.location == location
            &&& chunk.timestamp == timestamp
            &&& decompressed(kind, data, Ok(chunk.uncompressed@))
        },
        Err(e) => decompressed(kind, data, Err(e)),
    }
}

impl ExternalChunk {
    /// The chunk, given the bytes of the file that holds its payload.
    pub fn load(&self, data: &[u8]) -> (r: Result<Chunk, AnvilError>)
        ensures
            chunk_from(true, self.location, self.timestamp, self.kind, data@, r),
    {
        match decompress(self.kind, data) {
            Ok(uncompressed) => Ok(
                Chunk {
                    external: true,
                    location: self.location,
                    timestamp: self.timestamp,
                    uncompressed,
                },
            ),
            Err(e) => Err(e),
        }
    }
}

/// `r` is what reading `slot` of the image of the file `name` gives.
pub open spec fn slot_read(image: Seq<u8>, name: Seq<u8>, slot: int, r: Result<
    SlotRead,
    AnvilError,
>) -> bool {
    let location = location_of(slot);
    let timestamp = slot_timestamp(image, slot) as i32;
    match stored(image, slot) {
        Err(e) => r == Err::<SlotRead, AnvilError>(e),
        Ok(Stored::Inline { kind, data }) => match r {
            Ok(SlotRead::Loaded(chunk)) => chunk_from(
                false,
                location,
                timestamp,
                kind,
                data,
                Ok(chunk),
            ),
            Ok(SlotRead::Pending(_)) => false,
            Err(e) => decompressed(kind, data, Err(e)),
        },
        Ok(Stored::Outside { kind }) => match external_name(name, location) {
            Err(e) => r == Err::<SlotRead, AnvilError>(e),
            Ok(n) => match r {
                Ok(SlotRead::Pending(pending)) => {
                    &&& pending.name@ == n
                    &&& pending.kind == kind
                    &&& pending.location == location
                    &&& pending.timestamp == timestamp
                },
                _ => false,
            },
        },
    }
}

/// The first populated slot from `from` on, or 1024 where there is none.
pub open spec fn next_populated(image: Seq<u8>, from: int) -> int
    decreases 1024 - from,
{
    if from >= 1024 {
        1024
    } else if populated(image, from) {
        from
    } else {
        next_populated(image, from + 1)
    }
}

/// A walk over the populated slots of a region, in the order of the slots.
pub struct AnvilIter<'a> {
    index: usize,
    anvil: &'a Anvil,
}

impl<'a> AnvilIter<'a> {
    /// The slot that the walk has come to.
    pub closed spec fn position(&self) -> int {
        self.index as int
    }

    /// The region that is walked over.
    pub closed spec fn region(&self) -> &Anvil {
        self.anvil
    }

    /// The walk is over a well-formed region and within its slots.
    pub open spec fn wf(&self) -> bool {
        self.region().wf() && 0 <= self.position() <= 1024
    }

    /// The slot that the walk has come to: one past the slot of the chunk
    /// that `next` returned last.
    pub fn slot(&self) -> (r: usize)
        ensures
            r == self.position(),
    {
        self.index
    }

    /// Reads the chunk in the slot that the walk has come to.
    fn peak(&self) -> (r: Result<SlotRead, AnvilError>)
        requires
            self.wf(),
            self.position() < 1024,
        ensures
            slot_read(self.region().image(), self.region().file_name(), self.position(), r),
    {
        let content = self.anvil.content.as_slice();
        let len: usize = content.len();
        let location: (i32, i32) = ((self.index % 32) as i32, (self.index / 32 % 32) as i32);
        let word: u32 = read_u32(content, self.index * 4);
        let offset: u32 = word / 256;
        let sector_count: u32 = word % 256;
        let timestamp: i32 = to_signed(read_u32(content, self.index * 4 + SECTOR_SIZE));
        let start: u64 = offset as u64 * 4096;
        if start + 4096 * sector_count as u64 > len as u64 {
            return Err(AnvilError::InvalidSectorCount);
        }
        if start + 4 > len as u64 {
            return Err(AnvilError::InvalidChunkLength);
        }
        let start: usize = start as usize;
        let chunk_len: u32 = read_u32(content, start);
        if chunk_len < 1 || start as u64 + chunk_len as u64 + 4 > len as u64 {
            return Err(AnvilError::InvalidChunkLength);
        }
        let chunk_len: usize = chunk_len as usize;
        let compression_type: u8 = content[start + 4];
        if compression_type >= COMPRESSION_EXTERNAL {
            let name = self.anvil.external_location(location)?;
            Ok(
                SlotRead::Pending(
                    ExternalChunk {
                        name,
                        kind: compression_type - COMPRESSION_EXTERNAL,
                        location,
                        timestamp,
                    },
                ),
            )
        } else {
            let compressed = slice_subrange(content, start + 5, start + chunk_len + 4);
            match decompress(compression_type, compressed) {
                Ok(uncompressed) => Ok(
                    SlotRead::Loaded(Chunk { external: false, location, timestamp, uncompressed }),
                ),
                Err(e) => Err(e),
            }
        }
    }

    /// Goes on to the next populated slot and reads the chunk in it. Returns
    /// nothing when no populated slot is left. A chunk that cannot be read
    /// gives an error, and the walk goes on behind it.
    pub fn next(&mut self) -> (r: Option<Result<SlotRead, AnvilError>>)
        requires
            old(self).wf(),
        ensures
            final(self).wf(),
            final(self).region() == old(self).region(),
            match r {
                None => {
                    &&& next_populated(old(self).region().image(), old(self).position()) == 1024
                    &&& final(self).position() == 1024
                },
                Some(read) => {
                    let slot = next_populated(old(self).region().image(), old(self).position());
                    &&& slot < 1024
                    &&& final(self).position() == slot + 1
                    &&& slot_read(
                        old(self).region().image(),
                        old(self).region().file_name(),
                        slot,
                        read,
                    )
                },
            },
    {
        let ghost image = self.anvil.content@;
        let ghost from = self.index as int;
        while self.index < MAX_CHUNK_NUM && read_u32(self.anvil.content.as_slice(), self.index * 4)
            == 0
            invariant
                self.wf(),
                self.anvil == old(self).anvil,
                image == self.anvil.content@,
                from <= self.index,
                next_populated(image, from) == next_populated(image, self.index as int),
            decreases 1024 - self.index,
        {
            self.index += 1;
        }
        if self.index == MAX_CHUNK_NUM {
            return None;
        }
        let ret = self.peak();
        self.index += 1;
        Some(ret)
    }
}

/// The number of sectors that a chunk takes whose tag and payload are
/// `body_len` bytes: the four bytes of the length are counted in.
pub open spec fn sectors_for(body_len: int) -> int {
    (body_len + 4 + 4095) / 4096
}

/// The compressed payload is too large to stand in the image: with its
/// header it would take more than 255 sectors.
pub open spec fn too_large(compressed: Seq<u8>) -> bool {
    sectors_for(1 + compressed.len() as int) > 255
}

/// The image with the timestamp of `slot` set.
pub open spec fn stamped(image: Seq<u8>, slot: int, timestamp: i32) -> Seq<u8> {
    overwrite(image, 4096 + slot * 4, u32_be_bytes(unsigned32(timestamp as int)))
}

/// The image after a chunk with the given tag and payload was appended for
/// `slot`: the timestamp set, the location word pointing at the old end of
/// the image, and behind the old end the length, the body and zeros up to
/// the next whole sector.
pub open spec fn with_chunk(image: Seq<u8>, slot: int, timestamp: i32, body: Seq<u8>) -> Seq<u8> {
    appended(stamped(image, slot, timestamp), slot, body)
}

/// The image after a chunk with the given tag and payload was appended for
/// `slot`, the timestamp left as it was.
pub open spec fn appended(image: Seq<u8>, slot: int, body: Seq<u8>) -> Seq<u8> {
    let word = image.len() / 4096 * 256 + sectors_for(body.len() as int);
    let tables = overwrite(image, slot * 4, u32_be_bytes(word));
    let grown = tables + u32_be_bytes(body.len() as int) + body;
    grown + zeros(aligned(grown.len() as int) - grown.len())
}

/// What becomes of the image of the file `name`, and what is to be done
/// outside it, when a chunk with the compressed payload `compressed` is
/// written. A payload that is too large leaves a stub in the image and is to
/// be stored in a file of its own; a chunk that came from such a file and now
/// fits has that file removed. Where the file's name cannot be derived, the
/// chunk is not written; only its timestamp is.
pub open spec fn written(
    image: Seq<u8>,
    name: Seq<u8>,
    external: bool,
    location: (i32, i32),
    timestamp: i32,
    compressed: Seq<u8>,
) -> (Seq<u8>, Result<ExternalActionView, AnvilError>) {
    let slot = slot_of(location);
    let inline = with_chunk(image, slot, timestamp, seq![COMPRESSION_KIND_ZLIB] + compressed);
    let stub = with_chunk(image, slot, timestamp, seq![130u8]);
    if too_large(compressed) {
        match external_name(name, location) {
            Err(e) => (stamped(image, slot, timestamp), Err(e)),
            Ok(n) => (stub, Ok(ExternalActionView::Store { name: n, data: compressed })),
        }
    } else if external {
        match external_name(name, location) {
            Err(e) => (stamped(image, slot, timestamp), Err(e)),
            Ok(n) => (inline, Ok(ExternalActionView::Remove { name: n })),
        }
    } else {
        (inline, Ok(ExternalActionView::Keep))
    }
}

/// The action in `r`, as contracts see it.
pub open spec fn action_of(r: Result<ExternalAction, AnvilError>) -> Result<
    ExternalActionView,
    AnvilError,
> {
    match r {
        Ok(a) => Ok(a@),
        Err(e) => Err(e),
    }
}

/// What becomes of the image `image` of the file `name`, and what is
/// returned, when a chunk with the payload `payload` is written: where the
/// payload cannot be compressed, the error `Compress` and the image as it
/// was; where the image has no room for the compressed payload, the error
/// `RegionFull` and the image as it was; else what `written` says of the
/// compressed payload.
pub open spec fn write_outcome(
    image: Seq<u8>,
    name: Seq<u8>,
    external: bool,
    location: (i32, i32),
    timestamp: i32,
    payload: Seq<u8>,
    after: Seq<u8>,
    r: Result<ExternalActionView, AnvilError>,
) -> bool {
    match zlib_encoded(payload) {
        None => r == Err::<ExternalActionView, AnvilError>(AnvilError::Compress) && after == image,
        Some(compressed) => if has_room(image, compressed) {
            (after, r) == written(image, name, external, location, timestamp, compressed)
        } else {
            r == Err::<ExternalActionView, AnvilError>(AnvilError::RegionFull) && after == image
        },
    }
}

/// The image has room for a chunk with the compressed payload `compressed`:
/// the chunk's first sector can be named in 24 bits, and the image's new
/// length can be held in a `usize`.
pub open spec fn has_room(image: Seq<u8>, compressed: Seq<u8>) -> bool {
    image.len() / 4096 < 0x100_0000 && image.len() + compressed.len() + 5 + 4095 <= usize::MAX
}

/// A chunk that was appended leaves a valid region valid.
#[verifier::rlimit(40)]
pub proof fn lemma_with_chunk_valid(image: Seq<u8>, slot: int, timestamp: i32, body: Seq<u8>)
    requires
        whole_sectors(image),
        0 <= slot < 1024,
        image.len() / 4096 < 0x100_0000,
        1 <= sectors_for(body.len() as int) <= 255,
    ensures
        whole_sectors(with_chunk(image, slot, timestamp, body)),
        valid_region(image) ==> valid_region(with_chunk(image, slot, timestamp, body)),
        location_word(with_chunk(image, slot, timestamp, body), slot) == image.len() / 4096 * 256
            + sectors_for(body.len() as int),
        slot_timestamp(with_chunk(image, slot, timestamp, body), slot) == timestamp,
{
    let sectors = sectors_for(body.len() as int);
    let word = image.len() / 4096 * 256 + sectors;
    let marked = stamped(image, slot, timestamp);
    let after = with_chunk(image, slot, timestamp, body);
    lemma_stamped_words(image, slot, timestamp);
    lemma_appended_words(marked, slot, body);
    lemma_signed_round_trip(timestamp as int);
    assert(slot_timestamp(after, slot) == timestamp);
    assert(word / 256 == image.len() / 4096 && word % 256 == sectors);
    if valid_region(image) {
        assert forall|s: int| 0 <= s < 1024 && populated(after, s) implies #[trigger] slot_in_bounds(
            after,
            s,
        ) by {
            if s != slot {
                assert(location_word(after, s) == location_word(marked, s));
                assert(location_word(marked, s) == location_word(image, s));
                assert(slot_in_bounds(image, s));
            } else {
                assert(location_word(after, s) == word);
            }
        }
    }
}

/// The tables of an image whose timestamp for `slot` was set.
pub proof fn lemma_stamped_words(image: Seq<u8>, slot: int, timestamp: i32)
    requires
        whole_sectors(image),
        0 <= slot < 1024,
    ensures
        stamped(image, slot, timestamp).len() == image.len(),
        be_u32(stamped(image, slot, timestamp), 4096 + slot * 4) == unsigned32(timestamp as int),
        forall|s: int|
            0 <= s < 1024 ==> #[trigger] location_word(stamped(image, slot, timestamp), s)
                == location_word(image, s),
{
    let stamp = unsigned32(timestamp as int);
    lemma_read_written(image, 4096 + slot * 4, stamp);
    assert forall|s: int| 0 <= s < 1024 implies #[trigger] location_word(
        stamped(image, slot, timestamp),
        s,
    ) == location_word(image, s) by {
        lemma_read_beside(image, 4096 + slot * 4, stamp, s * 4);
    }
}

/// The tables and the length of an image to which a chunk was appended.
#[verifier::rlimit(40)]
pub proof fn lemma_appended_words(image: Seq<u8>, slot: int, body: Seq<u8>)
    requires
        whole_sectors(image),
        0 <= slot < 1024,
        image.len() / 4096 < 0x100_0000,
        1 <= sectors_for(body.len() as int) <= 255,
    ensures
        appended(image, slot, body).len() == image.len() + sectors_for(body.len() as int) * 4096,
        forall|s: int|
            0 <= s < 1024 ==> #[trigger] location_word(appended(image, slot, body), s) == if s
                == slot {
                image.len() / 4096 * 256 + sectors_for(body.len() as int)
            } else {
                location_word(image, s)
            },
        be_u32(appended(image, slot, body), 4096 + slot * 4) == be_u32(image, 4096 + slot * 4),
{
    let word = image.len() / 4096 * 256 + sectors_for(body.len() as int);
    let tables = overwrite(image, slot * 4, u32_be_bytes(word));
    let rest = u32_be_bytes(body.len() as int) + body;
    let grown = tables + rest;
    let padding = zeros(aligned(grown.len() as int) - grown.len());
    let after = grown + padding;
    lemma_read_written(image, slot * 4, word);
    lemma_aligned_growth(image.len() as int, body.len() as int);
    assert(tables + u32_be_bytes(body.len() as int) + body =~= grown);
    assert(after == appended(image, slot, body));
    assert(after =~= tables + (rest + padding));
    assert forall|s: int| 0 <= s < 1024 implies #[trigger] location_word(after, s) == if s == slot {
        word
    } else {
        location_word(image, s)
    } by {
        lemma_read_before(tables, rest + padding, s * 4);
        if s != slot {
            lemma_read_beside(image, slot * 4, word, s * 4);
        }
    }
    lemma_read_before(tables, rest + padding, 4096 + slot * 4);
    lemma_read_beside(image, slot * 4, word, 4096 + slot * 4);
}

/// A chunk of `n` bytes with its length, appended to whole sectors and
/// filled up, takes the sectors that `sectors_for` counts.
pub proof fn lemma_aligned_growth(len: int, n: int)
    requires
        len >= 0,
        len % 4096 == 0,
        n >= 0,
    ensures
        aligned(len + 4 + n) == len + sectors_for(n) * 4096,
        sectors_for(n) >= 1,
{
}

/// A chunk that was appended is what the image holds for its slot: its tag
/// and its payload, or its tag alone where the tag says that the payload
/// is held outside.
#[verifier::rlimit(40)]
pub proof fn lemma_chunk_reads_back(image: Seq<u8>, slot: int, timestamp: i32, body: Seq<u8>)
    requires
        whole_sectors(image),
        0 <= slot < 1024,
        image.len() / 4096 < 0x100_0000,
        body.len() >= 1,
        sectors_for(body.len() as int) <= 255,
    ensures
        populated(with_chunk(image, slot, timestamp, body), slot),
        slot_timestamp(with_chunk(image, slot, timestamp, body), slot) == timestamp,
        stored(with_chunk(image, slot, timestamp, body), slot) == Ok::<Stored, AnvilError>(
            if body[0] >= COMPRESSION_EXTERNAL {
                Stored::Outside { kind: (body[0] - COMPRESSION_EXTERNAL) as u8 }
            } else {
                Stored::Inline { kind: body[0], data: body.subrange(1, body.len() as int) }
            },
        ),
{
    let marked = stamped(image, slot, timestamp);
    let after = with_chunk(image, slot, timestamp, body);
    let sectors = sectors_for(body.len() as int);
    let word = image.len() / 4096 * 256 + sectors;
    lemma_aligned_growth(image.len() as int, body.len() as int);
    lemma_with_chunk_valid(image, slot, timestamp, body);
    assert(word / 256 == image.len() / 4096 && word % 256 == sectors);
    let start = image.len() as int;
    assert(slot_offset(after, slot) * 4096 == start);
    let tables = overwrite(marked, slot * 4, u32_be_bytes(word));
    let grown = tables + u32_be_bytes(body.len() as int) + body;
    let padding = zeros(aligned(grown.len() as int) - grown.len());
    assert(marked.len() == image.len());
    assert(tables.len() == image.len());
    assert(after =~= tables + u32_be_bytes(body.len() as int) + (body + padding));
    lemma_read_appended(tables, body.len() as int, body + padding);
    assert(be_u32(after, start) == body.len());
    assert(after[start + 4] == body[0]);
    assert(after.subrange(start + 5, start + 4 + body.len()) =~= body.subrange(
        1,
        body.len() as int,
    ));
}

/// A chunk that was written is what the image holds for its slot, under
/// its place and its timestamp: the compressed payload, or, where that is
/// too large, the mark that it is held outside.
#[verifier::rlimit(40)]
pub proof fn lemma_written_chunk_reads_back(
    image: Seq<u8>,
    name: Seq<u8>,
    external: bool,
    location: (i32, i32),
    timestamp: i32,
    compressed: Seq<u8>,
)
    requires
        whole_sectors(image),
        in_region(location),
        has_room(image, compressed),
        written(image, name, external, location, timestamp, compressed).1 is Ok,
    ensures
        ({
            let after = written(image, name, external, location, timestamp, compressed).0;
            let slot = slot_of(location);
            &&& 0 <= slot < 1024
            &&& location_of(slot) == location
            &&& populated(after, slot)
            &&& slot_timestamp(after, slot) == timestamp
            &&& stored(after, slot) == Ok::<Stored, AnvilError>(
                if too_large(compressed) {
                    Stored::Outside { kind: COMPRESSION_KIND_ZLIB }
                } else {
                    Stored::Inline { kind: COMPRESSION_KIND_ZLIB, data: compressed }
                },
            )
        }),
{
    let slot = slot_of(location);
    let after = written(image, name, external, location, timestamp, compressed).0;
    lemma_slot_of_location(location);
    if too_large(compressed) {
        let body = seq![130u8];
        assert(after == with_chunk(image, slot, timestamp, body));
        assert(sectors_for(body.len() as int) == 1);
        lemma_chunk_reads_back(image, slot, timestamp, body);
        assert(body[0] == 130);
    } else {
        let body = seq![COMPRESSION_KIND_ZLIB] + compressed;
        assert(after == with_chunk(image, slot, timestamp, body));
        assert(body.len() == 1 + compressed.len());
        lemma_chunk_reads_back(image, slot, timestamp, body);
        assert(body[0] == COMPRESSION_KIND_ZLIB);
        assert(body.subrange(1, body.len() as int) =~= compressed);
    }
}

/// A place in a region and its slot stand for one another.
pub proof fn lemma_slot_of_location(location: (i32, i32))
    requires
        in_region(location),
    ensures
        0 <= slot_of(location) < 1024,
        location_of(slot_of(location)) == location,
{
}

/// An empty region is valid.
pub proof fn lemma_empty_region_valid()
    ensures
        valid_region(zeros(8192)),
{
    let image = zeros(8192);
    assert forall|slot: int| 0 <= slot < 1024 implies !populated(image, slot) by {
        assert(image[slot * 4] == 0 && image[slot * 4 + 1] == 0 && image[slot * 4 + 2] == 0
            && image[slot * 4 + 3] == 0);
    }
}

/// A timestamp that was set leaves a valid region valid.
pub proof fn lemma_stamped_valid(image: Seq<u8>, slot: int, timestamp: i32)
    requires
        whole_sectors(image),
        0 <= slot < 1024,
    ensures
        whole_sectors(stamped(image, slot, timestamp)),
        valid_region(image) ==> valid_region(stamped(image, slot, timestamp)),
{
    let after = stamped(image, slot, timestamp);
    if valid_region(image) {
        assert forall|s: int| 0 <= s < 1024 && populated(after, s) implies #[trigger] slot_in_bounds(
            after,
            s,
        ) by {
            assert(location_word(after, s) == location_word(image, s));
            assert(slot_in_bounds(image, s));
        }
    }
}

/// A region image together with the name of its file.
pub struct Anvil {
    name: Vec<u8>,
    content: Vec<u8>,
}

/// `n` zero bytes.
pub open spec fn zeros(n: int) -> Seq<u8> {
    Seq::new(n as nat, |i: int| 0u8)
}

/// The least multiple of the sector size that is not below `len`.
pub open spec fn aligned(len: int) -> int {
    (len + 4095) / 4096 * 4096
}

/// `image` is made of whole sectors, at least two.
pub open spec fn whole_sectors(image: Seq<u8>) -> bool {
    image.len() % 4096 == 0 && image.len() >= 8192
}

impl Anvil {
    /// The bytes of the image.
    pub closed spec fn image(&self) -> Seq<u8> {
        self.content@
    }

    /// The bytes of the region's file name.
    pub closed spec fn file_name(&self) -> Seq<u8> {
        self.name@
    }

    /// The image is made of whole sectors, at least two.
    pub open spec fn wf(&self) -> bool {
        whole_sectors(self.image())
    }

    /// The name of the file beside the region file that holds the payload of
    /// the chunk at `local`.
    pub fn external_location(&self, local: (i32, i32)) -> (r: Result<Vec<u8>, AnvilError>)
        ensures
            match r {
                Ok(n) => external_name(self.file_name(), local) == Ok::<Seq<u8>, AnvilError>(n@),
                Err(e) => external_name(self.file_name(), local) == Err::<Seq<u8>, AnvilError>(e),
            },
    {
        let name = self.name.as_slice();
        let prefix = nth_field(name, 0);
        let extension = nth_field(name, 3);
        let beyond = nth_field(name, 4);
        let shaped = match (prefix, extension, beyond) {
            (Some((a, b)), Some((c, d)), None) => is_prefix(slice_subrange(name, a, b))
                && is_extension(slice_subrange(name, c, d)),
            _ => false,
        };
        if !shaped {
            return Err(AnvilError::InvalidFileName);
        }
        let x = match nth_field(name, 1) {
            Some((a, b)) => parse_decimal(slice_subrange(name, a, b)),
            None => None,
        };
        let z = match nth_field(name, 2) {
            Some((a, b)) => parse_decimal(slice_subrange(name, a, b)),
            None => None,
        };
        let rx: i64 = match x {
            Some(v) => v,
            None => {
                return Err(AnvilError::InvalidXCoordinate);
            },
        };
        let rz: i64 = match z {
            Some(v) => v,
            None => {
                return Err(AnvilError::InvalidZCoordinate);
            },
        };
        let gx: i128 = rx as i128 * 32 + local.0 as i128;
        let gz: i128 = rz as i128 * 32 + local.1 as i128;
        if gx < i64::MIN as i128 || gx > i64::MAX as i128 {
            return Err(AnvilError::InvalidXCoordinate);
        }
        if gz < i64::MIN as i128 || gz > i64::MAX as i128 {
            return Err(AnvilError::InvalidZCoordinate);
        }
        let mut out: Vec<u8> = Vec::new();
        out.push(0x63);
        out.push(DOT);
        push_decimal(&mut out, gx as i64);
        out.push(DOT);
        push_decimal(&mut out, gz as i64);
        out.push(DOT);
        out.push(0x6d);
        out.push(0x63);
        out.push(0x63);
        proof {
            assert(out@ =~= mcc_name(gx as int, gz as int));
        }
        Ok(out)
    }

    /// An empty region for the file `name`: two sectors of zeros.
    pub fn new(name: &str) -> (r: Anvil)
        ensures
            r.file_name() == name.spec_bytes(),
            r.image() == zeros(8192),
            r.wf(),
            valid_region(r.image()),
    {
        let content: Vec<u8> = vec![0u8; 8192];
        proof {
            assert(content@ =~= zeros(8192));
            lemma_empty_region_valid();
        }
        Anvil { name: name.as_bytes_vec(), content }
    }

    /// The region of the file `name` that holds `content`: the image is
    /// `content`, filled up with zeros to whole sectors. An image of less
    /// than two sectors is refused.
    pub fn open(name: &str, content: Vec<u8>) -> (r: Result<Anvil, AnvilError>)
        requires
            content@.len() + 4095 <= usize::MAX,
        ensures
            match r {
                Ok(a) => {
                    &&& aligned(content@.len() as int) >= 8192
                    &&& a.file_name() == name.spec_bytes()
                    &&& a.image() == content@ + zeros(aligned(content@.len() as int) - content@.len())
                    &&& a.wf()
                },
                Err(e) => e == AnvilError::InvalidFileSize && aligned(content@.len() as int) < 8192,
            },
    {
        let mut anvil = Anvil { name: name.as_bytes_vec(), content };
        let len = anvil.align();
        if len < 2 * SECTOR_SIZE {
            return Err(AnvilError::InvalidFileSize);
        }
        Ok(anvil)
    }

    /// A walk over the populated slots, from the first slot on.
    pub fn iter(&self) -> (r: AnvilIter<'_>)
        ensures
            r.region() == self,
            r.position() == 0,
    {
        AnvilIter { index: 0, anvil: self }
    }

    /// Appends the four bytes of `v`, most significant first.
    fn push_u32(&mut self, v: u32)
        ensures
            final(self).content@ == old(self).content@ + u32_be_bytes(v as int),
            final(self).name@ == old(self).name@,
    {
        self.content.push((v / 0x100_0000) as u8);
        self.content.push(((v / 0x1_0000) % 0x100) as u8);
        self.content.push(((v / 0x100) % 0x100) as u8);
        self.content.push((v % 0x100) as u8);
        proof {
            assert(self.content@ =~= old(self).content@ + u32_be_bytes(v as int));
        }
    }

    /// Writes a chunk whose payload is already compressed as a zlib stream.
    /// What is to be done with the file that holds the chunk's payload
    /// outside the image is returned; nothing is done to it here.
    #[verifier::rlimit(40)]
    pub fn write_compressed(
        &mut self,
        external: bool,
        location: (i32, i32),
        timestamp: i32,
        compressed: Vec<u8>,
    ) -> (r: Result<ExternalAction, AnvilError>)
        requires
            old(self).wf(),
            in_region(location),
            has_room(old(self).image(), compressed@),
        ensures
            final(self).file_name() == old(self).file_name(),
            final(self).wf(),
            valid_region(old(self).image()) ==> valid_region(final(self).image()),
            (final(self).image(), action_of(r)) == written(
                old(self).image(),
                old(self).file_name(),
                external,
                location,
                timestamp,
                compressed@,
            ),
    {
        let ghost image = self.content@;
        let index: usize = location.1 as usize * 32 + location.0 as usize;
        write_u32(self.content.as_mut_slice(), index * 4 + SECTOR_SIZE, to_unsigned(timestamp));
        proof {
            lemma_stamped_valid(image, index as int, timestamp);
        }
        let len: usize = compressed.len() + 1;
        let sector_count: usize = (len + 4 + (SECTOR_SIZE - 1)) / SECTOR_SIZE;
        if sector_count > 255 {
            let name = self.external_location(location)?;
            proof {
                lemma_with_chunk_valid(image, index as int, timestamp, seq![130u8]);
                assert((seq![130u8] + Seq::<u8>::empty()) =~= seq![130u8]);
            }
            self.append_chunk(index, COMPRESSION_EXTERNAL + COMPRESSION_KIND_ZLIB, Vec::new());
            Ok(ExternalAction::Store { name, data: compressed })
        } else {
            let action = if external {
                ExternalAction::Remove { name: self.external_location(location)? }
            } else {
                ExternalAction::Keep
            };
            proof {
                lemma_with_chunk_valid(
                    image,
                    index as int,
                    timestamp,
                    seq![COMPRESSION_KIND_ZLIB] + compressed@,
                );
            }
            self.append_chunk(index, COMPRESSION_KIND_ZLIB, compressed);
            Ok(action)
        }
    }

    /// Appends a chunk for the slot `index`: its length, its tag and its
    /// payload, and zeros up to the next whole sector; and points the slot's
    /// location word at it.
    #[verifier::rlimit(40)]
    fn append_chunk(&mut self, index: usize, tag: u8, payload: Vec<u8>)
        requires
            old(self).wf(),
            index < 1024,
            old(self).content@.len() / 4096 < 0x100_0000,
            sectors_for(1 + payload@.len() as int) <= 255,
            old(self).content@.len() + payload@.len() + 5 + 4095 <= usize::MAX,
        ensures
            final(self).name@ == old(self).name@,
            final(self).content@ == appended(old(self).content@, index as int, seq![tag] + payload@),
    {
        let ghost image = self.content@;
        let ghost body = seq![tag] + payload@;
        let mut payload = payload;
        let old_len: usize = self.content.len();
        let len: usize = payload.len() + 1;
        let sector_count: usize = (len + 4 + (SECTOR_SIZE - 1)) / SECTOR_SIZE;
        let word: u32 = (old_len / SECTOR_SIZE) as u32 * 256 + sector_count as u32;
        write_u32(self.content.as_mut_slice(), index * 4, word);
        let ghost tables = self.content@;
        self.push_u32(len as u32);
        self.content.push(tag);
        self.content.append(&mut payload);
        let ghost grown = self.content@;
        proof {
            lemma_aligned_growth(image.len() as int, body.len() as int);
            assert(tables == overwrite(image, index * 4, u32_be_bytes(word as int)));
            assert(grown =~= tables + u32_be_bytes(body.len() as int) + body);
        }
        self.align();
    }

    /// Writes a chunk: compresses its payload as a zlib stream and appends
    /// it to the image, or, where it is too large for that, leaves a stub in
    /// the image. A slot that is written twice keeps what was written first
    /// in the image, out of reach. What is to be done with the file that
    /// holds the chunk's payload outside the image is returned; nothing is
    /// done to it here.
    pub fn write(&mut self, chunk: &Chunk) -> (r: Result<ExternalAction, AnvilError>)
        requires
            old(self).wf(),
            in_region(chunk.location),
        ensures
            final(self).file_name() == old(self).file_name(),
            final(self).wf(),
            valid_region(old(self).image()) ==> valid_region(final(self).image()),
            write_outcome(
                old(self).image(),
                old(self).file_name(),
                chunk.external,
                chunk.location,
                chunk.timestamp,
                chunk.uncompressed@,
                final(self).image(),
                action_of(r),
            ),
    {
        let compressed = match zlib_encode(chunk.uncompressed.as_slice()) {
            Ok(v) => v,
            Err(_) => {
                return Err(AnvilError::Compress);
            },
        };
        let len: usize = self.content.len();
        if len / SECTOR_SIZE >= 0x100_0000 || compressed.len() > usize::MAX - 5 - 4095 || len
            > usize::MAX - 5 - 4095 - compressed.len() {
            return Err(AnvilError::RegionFull);
        }
        self.write_compressed(chunk.external, chunk.location, chunk.timestamp, compressed)
    }

    /// The image, as it is to be saved.
    pub fn content(&self) -> (r: &Vec<u8>)
        ensures
            r@ == self.image(),
    {
        &self.content
    }

    /// Fills the image up with zeros to whole sectors and returns its length.
    pub fn align(&mut self) -> (r: usize)
        requires
            old(self).image().len() + 4095 <= usize::MAX,
        ensures
            r == aligned(old(self).image().len() as int),
            final(self).image() == old(self).image() + zeros(r - old(self).image().len()),
            final(self).file_name() == old(self).file_name(),
    {
        let len: usize = self.content.len();
        let align: usize = (len + (SECTOR_SIZE - 1)) / SECTOR_SIZE * SECTOR_SIZE;
        let ghost before = self.content@;
        self.content.resize(align, 0);
        proof {
            assert(self.content@ =~= before + zeros(align - len));
        }
        align
    }
}

} // verus!
