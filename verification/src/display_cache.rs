//! The bytes of a session's display cache: a header that says which program wrote it, and
//! two payloads, for the heights of rows and for compiled layouts.
use vstd::prelude::*;
use vstd::bytes::{
    lemma_auto_spec_u16_to_from_le_bytes, lemma_auto_spec_u32_to_from_le_bytes,
    lemma_auto_spec_u64_to_from_le_bytes, spec_u16_from_le_bytes, spec_u16_to_le_bytes,
    spec_u32_from_le_bytes, spec_u32_to_le_bytes, spec_u64_from_le_bytes, spec_u64_to_le_bytes,
    u16_from_le_bytes, u16_to_le_bytes, u32_from_le_bytes, u32_to_le_bytes, u64_from_le_bytes,
    u64_to_le_bytes,
};
use vstd::slice::slice_subrange;
use crate::keys::DISPLAY_RENDERER_VERSION;

verus! {

/// The version of the format.
pub const FORMAT_VERSION: u32 = 2;

/// Bytes of the mark that a cache begins with.
pub const MAGIC_LEN: usize = 8;

/// Bytes of the header without the version of the program.
pub const FIXED_HEADER_LEN: usize = 38;

/// The mark that a cache begins with: `SMELTIR` and a zero.
pub open spec fn magic_bytes() -> Seq<u8> {
    seq![83, 77, 69, 76, 84, 73, 82, 0]
}

fn magic() -> (bytes: Vec<u8>)
    ensures
        bytes@ == magic_bytes(),
{
    let bytes: Vec<u8> = vec![83, 77, 69, 76, 84, 73, 82, 0];
    proof {
        assert(bytes@ =~= magic_bytes());
    }
    bytes
}

/// The bytes of a cache that the program of version `build` writes.
pub open spec fn cache_bytes(build: Seq<u8>, rows: Seq<u8>, layouts: Seq<u8>) -> Seq<u8> {
    magic_bytes() + spec_u32_to_le_bytes(FORMAT_VERSION) + spec_u64_to_le_bytes(
        DISPLAY_RENDERER_VERSION,
    ) + spec_u16_to_le_bytes(build.len() as u16) + spec_u64_to_le_bytes(rows.len() as u64)
        + spec_u64_to_le_bytes(layouts.len() as u64) + build + rows + layouts
}

/// Why bytes are no cache that this program can use.
#[derive(Clone, Copy, Debug, PartialEq, Eq, Structural)]
pub enum DecodeError {
    HeaderTooShort,
    BadMagic,
    BadFormatVersion,
    BadRendererVersion,
    BadBuildLength,
    BadBuildVersion,
    BadPayloadLength,
    TrailingBytes,
}

/// What a cache holds.
#[derive(Debug)]
pub struct CachePayloads {
    pub row_indexes: Vec<u8>,
    pub display_layouts: Vec<u8>,
}

/// What a cache holds, as mathematical values.
pub struct Payloads {
    pub row_indexes: Seq<u8>,
    pub display_layouts: Seq<u8>,
}

impl View for CachePayloads {
    type V = Payloads;

    open spec fn view(&self) -> Payloads {
        Payloads { row_indexes: self.row_indexes@, display_layouts: self.display_layouts@ }
    }
}

/// The bytes of a cache. A version of the program that is too long to be written gives none.
pub fn encode_with_payloads(build: &[u8], row_payload: &[u8], display_payload: &[u8]) -> (r: Option<
    Vec<u8>,
>)
    ensures
        r is None <==> build@.len() > u16::MAX,
        r is Some ==> r->0@ == cache_bytes(build@, row_payload@, display_payload@),
{
    if build.len() > u16::MAX as usize {
        return None;
    }
    let mut out: Vec<u8> = magic();
    out.append(&mut u32_to_le_bytes(FORMAT_VERSION));
    out.append(&mut u64_to_le_bytes(DISPLAY_RENDERER_VERSION));
    out.append(&mut u16_to_le_bytes(build.len() as u16));
    out.append(&mut u64_to_le_bytes(row_payload.len() as u64));
    out.append(&mut u64_to_le_bytes(display_payload.len() as u64));
    out.extend_from_slice(build);
    out.extend_from_slice(row_payload);
    out.extend_from_slice(display_payload);
    proof {
        assert(out@ =~= cache_bytes(build@, row_payload@, display_payload@));
    }
    Some(out)
}

/// Whether `len` bytes at `pos` are there.
pub open spec fn has_bytes(bytes: Seq<u8>, pos: int, len: int) -> bool {
    pos + len <= bytes.len()
}

/// Reads two bytes at `pos`, least first, and moves behind them.
pub fn read_u16(bytes: &[u8], pos: &mut usize) -> (r: Option<u16>)
    ensures
        match r {
            Some(value) => {
                &&& has_bytes(bytes@, *old(pos) as int, 2)
                &&& value == spec_u16_from_le_bytes(bytes@.subrange(*old(pos) as int, *old(pos) + 2))
                &&& *final(pos) == *old(pos) + 2
            },
            None => !has_bytes(bytes@, *old(pos) as int, 2) && *final(pos) == *old(pos),
        },
{
    let start = *pos;
    if start > bytes.len() || bytes.len() - start < 2 {
        return None;
    }
    let value = u16_from_le_bytes(slice_subrange(bytes, start, start + 2));
    *pos = start + 2;
    Some(value)
}

/// Reads four bytes at `pos`, least first, and moves behind them.
pub fn read_u32(bytes: &[u8], pos: &mut usize) -> (r: Option<u32>)
    ensures
        match r {
            Some(value) => {
                &&& has_bytes(bytes@, *old(pos) as int, 4)
                &&& value == spec_u32_from_le_bytes(bytes@.subrange(*old(pos) as int, *old(pos) + 4))
                &&& *final(pos) == *old(pos) + 4
            },
            None => !has_bytes(bytes@, *old(pos) as int, 4) && *final(pos) == *old(pos),
        },
{
    let start = *pos;
    if start > bytes.len() || bytes.len() - start < 4 {
        return None;
    }
    let value = u32_from_le_bytes(slice_subrange(bytes, start, start + 4));
    *pos = start + 4;
    Some(value)
}

/// Reads eight bytes at `pos`, least first, and moves behind them.
pub fn read_u64(bytes: &[u8], pos: &mut usize) -> (r: Option<u64>)
    ensures
        match r {
            Some(value) => {
                &&& has_bytes(bytes@, *old(pos) as int, 8)
                &&& value == spec_u64_from_le_bytes(bytes@.subrange(*old(pos) as int, *old(pos) + 8))
                &&& *final(pos) == *old(pos) + 8
            },
            None => !has_bytes(bytes@, *old(pos) as int, 8) && *final(pos) == *old(pos),
        },
{
    let start = *pos;
    if start > bytes.len() || bytes.len() - start < 8 {
        return None;
    }
    let value = u64_from_le_bytes(slice_subrange(bytes, start, start + 8));
    *pos = start + 8;
    Some(value)
}

/// What the bytes behind the version of the format hold.
pub open spec fn decoded_split(bytes: Seq<u8>, build: Seq<u8>) -> Result<Payloads, DecodeError> {
    if bytes.len() < FIXED_HEADER_LEN {
        Err(DecodeError::HeaderTooShort)
    } else if spec_u64_from_le_bytes(bytes.subrange(12, 20)) != DISPLAY_RENDERER_VERSION {
        Err(DecodeError::BadRendererVersion)
    } else {
        let build_len = spec_u16_from_le_bytes(bytes.subrange(20, 22)) as int;
        let rows = spec_u64_from_le_bytes(bytes.subrange(22, 30)) as usize;
        let layouts = spec_u64_from_le_bytes(bytes.subrange(30, 38)) as usize;
        let build_end = FIXED_HEADER_LEN + build_len;
        let rows_end = build_end + rows;
        let layouts_end = rows_end + layouts;
        if build_end > bytes.len() {
            Err(DecodeError::BadBuildLength)
        } else if bytes.subrange(FIXED_HEADER_LEN as int, build_end) != build {
            Err(DecodeError::BadBuildVersion)
        } else if layouts_end > bytes.len() {
            Err(DecodeError::BadPayloadLength)
        } else if layouts_end < bytes.len() {
            Err(DecodeError::TrailingBytes)
        } else {
            Ok(
                Payloads {
                    row_indexes: bytes.subrange(build_end, rows_end),
                    display_layouts: bytes.subrange(rows_end, layouts_end),
                },
            )
        }
    }
}

/// What some bytes hold for the program of version `build`.
pub open spec fn decoded(bytes: Seq<u8>, build: Seq<u8>) -> Result<Payloads, DecodeError> {
    if bytes.len() < MAGIC_LEN + 4 {
        Err(DecodeError::HeaderTooShort)
    } else if bytes.subrange(0, MAGIC_LEN as int) != magic_bytes() {
        Err(DecodeError::BadMagic)
    } else if spec_u32_from_le_bytes(bytes.subrange(MAGIC_LEN as int, 12)) != FORMAT_VERSION {
        Err(DecodeError::BadFormatVersion)
    } else {
        decoded_split(bytes, build)
    }
}

/// The outcome of decoding, as mathematical values.
pub open spec fn outcome(r: Result<CachePayloads, DecodeError>) -> Result<Payloads, DecodeError> {
    match r {
        Ok(payloads) => Ok(payloads@),
        Err(error) => Err(error),
    }
}

fn same_bytes(a: &[u8], b: &[u8]) -> (r: bool)
    ensures
        r == (a@ == b@),
{
    if a.len() != b.len() {
        return false;
    }
    let mut i: usize = 0;
    while i < a.len()
        invariant
            i <= a@.len(),
            a@.len() == b@.len(),
            forall|k: int| 0 <= k < i ==> a@[k] == b@[k],
        decreases a@.len() - i,
    {
        if a[i] != b[i] {
            return false;
        }
        i += 1;
    }
    proof {
        assert(a@ =~= b@);
    }
    true
}

fn bytes_between(bytes: &[u8], start: usize, end: usize) -> (r: Vec<u8>)
    requires
        start <= end <= bytes@.len(),
    ensures
        r@ == bytes@.subrange(start as int, end as int),
{
    let mut r: Vec<u8> = Vec::new();
    r.extend_from_slice(slice_subrange(bytes, start, end));
    proof {
        assert(r@ =~= bytes@.subrange(start as int, end as int));
    }
    r
}

/// What some bytes hold for the program of version `build`.
pub fn decode(bytes: &[u8], build: &[u8]) -> (r: Result<CachePayloads, DecodeError>)
    ensures
        outcome(r) == decoded(bytes@, build@),
{
    if bytes.len() < MAGIC_LEN + 4 {
        return Err(DecodeError::HeaderTooShort);
    }
    let mark = magic();
    if !same_bytes(slice_subrange(bytes, 0, MAGIC_LEN), mark.as_slice()) {
        return Err(DecodeError::BadMagic);
    }
    let mut pos: usize = MAGIC_LEN;
    let format_version = match read_u32(bytes, &mut pos) {
        Some(value) => value,
        None => return Err(DecodeError::BadFormatVersion),
    };
    if format_version != FORMAT_VERSION {
        return Err(DecodeError::BadFormatVersion);
    }
    decode_split_payload(bytes, build, pos)
}

/// What the bytes behind the version of the format hold.
fn decode_split_payload(bytes: &[u8], build: &[u8], start: usize) -> (r: Result<
    CachePayloads,
    DecodeError,
>)
    requires
        start == MAGIC_LEN + 4,
    ensures
        outcome(r) == decoded_split(bytes@, build@),
{
    let mut pos: usize = start;
    if bytes.len() < FIXED_HEADER_LEN {
        return Err(DecodeError::HeaderTooShort);
    }
    let renderer_version = match read_u64(bytes, &mut pos) {
        Some(value) => value,
        None => return Err(DecodeError::BadRendererVersion),
    };
    if renderer_version != DISPLAY_RENDERER_VERSION {
        return Err(DecodeError::BadRendererVersion);
    }
    let build_len = match read_u16(bytes, &mut pos) {
        Some(value) => value as usize,
        None => return Err(DecodeError::BadBuildLength),
    };
    let row_payload_len = match read_u64(bytes, &mut pos) {
        Some(value) => #[verifier::truncate] (value as usize),
        None => return Err(DecodeError::BadPayloadLength),
    };
    let display_payload_len = match read_u64(bytes, &mut pos) {
        Some(value) => #[verifier::truncate] (value as usize),
        None => return Err(DecodeError::BadPayloadLength),
    };
    if bytes.len() - pos < build_len {
        return Err(DecodeError::BadBuildLength);
    }
    let build_end = pos + build_len;
    if !same_bytes(slice_subrange(bytes, pos, build_end), build) {
        return Err(DecodeError::BadBuildVersion);
    }
    if bytes.len() - build_end < row_payload_len {
        return Err(DecodeError::BadPayloadLength);
    }
    let row_payload_end = build_end + row_payload_len;
    if bytes.len() - row_payload_end < display_payload_len {
        return Err(DecodeError::BadPayloadLength);
    }
    let display_payload_end = row_payload_end + display_payload_len;
    if display_payload_end != bytes.len() {
        return Err(DecodeError::TrailingBytes);
    }
    Ok(
        CachePayloads {
            row_indexes: bytes_between(bytes, build_end, row_payload_end),
            display_layouts: bytes_between(bytes, row_payload_end, display_payload_end),
        },
    )
}

/// What the program wrote, it reads.
pub proof fn written_cache_is_read(build: Seq<u8>, rows: Seq<u8>, layouts: Seq<u8>)
    requires
        build.len() <= u16::MAX,
        rows.len() <= usize::MAX,
        layouts.len() <= usize::MAX,
    ensures
        decoded(cache_bytes(build, rows, layouts), build) == Ok::<Payloads, DecodeError>(
            Payloads { row_indexes: rows, display_layouts: layouts },
        ),
{
    lemma_auto_spec_u16_to_from_le_bytes();
    lemma_auto_spec_u32_to_from_le_bytes();
    lemma_auto_spec_u64_to_from_le_bytes();
    let bytes = cache_bytes(build, rows, layouts);
    assert(spec_u32_to_le_bytes(FORMAT_VERSION).len() == 4);
    assert(spec_u64_to_le_bytes(DISPLAY_RENDERER_VERSION).len() == 8);
    assert(spec_u16_to_le_bytes(build.len() as u16).len() == 2);
    assert(spec_u64_to_le_bytes(rows.len() as u64).len() == 8);
    assert(spec_u64_to_le_bytes(layouts.len() as u64).len() == 8);
    assert(bytes.subrange(0, 8) =~= magic_bytes());
    assert(bytes.subrange(8, 12) =~= spec_u32_to_le_bytes(FORMAT_VERSION));
    assert(bytes.subrange(12, 20) =~= spec_u64_to_le_bytes(DISPLAY_RENDERER_VERSION));
    assert(bytes.subrange(20, 22) =~= spec_u16_to_le_bytes(build.len() as u16));
    assert(bytes.subrange(22, 30) =~= spec_u64_to_le_bytes(rows.len() as u64));
    assert(bytes.subrange(30, 38) =~= spec_u64_to_le_bytes(layouts.len() as u64));
    let build_end = 38 + build.len() as int;
    let rows_end = build_end + rows.len();
    assert(bytes.subrange(38, build_end) =~= build);
    assert(bytes.subrange(build_end, rows_end) =~= rows);
    assert(bytes.subrange(rows_end, rows_end + layouts.len()) =~= layouts);
}

/// A cache that another version of the program wrote is not read.
pub proof fn cache_of_another_build_is_refused(
    build: Seq<u8>,
    other: Seq<u8>,
    rows: Seq<u8>,
    layouts: Seq<u8>,
)
    requires
        build.len() <= u16::MAX,
        rows.len() <= usize::MAX,
        layouts.len() <= usize::MAX,
        build != other,
    ensures
        decoded(cache_bytes(build, rows, layouts), other) == Err::<Payloads, DecodeError>(
            DecodeError::BadBuildVersion,
        ),
{
    written_cache_is_read(build, rows, layouts);
    lemma_auto_spec_u16_to_from_le_bytes();
    lemma_auto_spec_u32_to_from_le_bytes();
    lemma_auto_spec_u64_to_from_le_bytes();
    let bytes = cache_bytes(build, rows, layouts);
    assert(spec_u32_to_le_bytes(FORMAT_VERSION).len() == 4);
    assert(spec_u64_to_le_bytes(DISPLAY_RENDERER_VERSION).len() == 8);
    assert(spec_u16_to_le_bytes(build.len() as u16).len() == 2);
    assert(spec_u64_to_le_bytes(rows.len() as u64).len() == 8);
    assert(spec_u64_to_le_bytes(layouts.len() as u64).len() == 8);
    assert(bytes.subrange(20, 22) =~= spec_u16_to_le_bytes(build.len() as u16));
    assert(bytes.subrange(38, 38 + build.len() as int) =~= build);
}

} // verus!
