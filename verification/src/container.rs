//! The `.nnvis` container: a 6-byte header (`NNVS` magic followed by a
//! little-endian `u16` format version) in front of a FlatBuffer payload.

use vstd::prelude::*;

verus! {

/// Magic bytes written at the start of every `.nnvis` file (`b"NNVS"`).
pub const MAGIC: [u8; 4] = [0x4e, 0x4e, 0x56, 0x53];

/// Format version encoded as two little-endian bytes after the magic.
pub const VERSION: u16 = 1;

/// Number of header bytes in front of the payload.
pub const HEADER_LEN: usize = 6;

/// The header bytes of the current format: magic followed by `VERSION` in
/// little-endian order.
pub open spec fn spec_header() -> Seq<u8> {
    seq![0x4eu8, 0x4eu8, 0x56u8, 0x53u8, 1u8, 0u8]
}

/// The complete `.nnvis` payload for a FlatBuffer.
pub open spec fn spec_encode(payload: Seq<u8>) -> Seq<u8> {
    spec_header() + payload
}

/// Why a byte string is not a `.nnvis` file of the supported version.
pub enum DecodeFailure {
    TooShort,
    BadMagic,
    BadVersion,
}

/// What decoding a byte string yields: the payload, or the first check
/// that failed.
pub open spec fn spec_decode(data: Seq<u8>) -> Result<Seq<u8>, DecodeFailure> {
    if data.len() < 6 {
        Err(DecodeFailure::TooShort)
    } else if data.subrange(0, 4) != spec_header().subrange(0, 4) {
        Err(DecodeFailure::BadMagic)
    } else if data[4] as int + 256 * (data[5] as int) != VERSION as int {
        Err(DecodeFailure::BadVersion)
    } else {
        Ok(data.subrange(6, data.len() as int))
    }
}

/// The message `decode_nnvis` returns for each failure.
pub open spec fn spec_failure_message(f: DecodeFailure) -> Seq<char> {
    match f {
        DecodeFailure::TooShort => "file too short to contain .nnvis header"@,
        DecodeFailure::BadMagic => "invalid magic bytes — not a .nnvis file"@,
        DecodeFailure::BadVersion => "unsupported .nnvis version"@,
    }
}

/// Write the 6-byte header (`NNVS` magic + version) followed by the raw
/// FlatBuffer bytes and return the complete `.nnvis` payload.
pub fn encode_nnvis(flatbuffer_bytes: &[u8]) -> (out: Vec<u8>)
    ensures
        out@ == spec_encode(flatbuffer_bytes@),
{
    let mut out: Vec<u8> = Vec::new();
    out.push(MAGIC[0]);
    out.push(MAGIC[1]);
    out.push(MAGIC[2]);
    out.push(MAGIC[3]);
    out.push((VERSION % 256) as u8);
    out.push((VERSION / 256) as u8);
    out.extend_from_slice(flatbuffer_bytes);
    assert(out@ =~= spec_encode(flatbuffer_bytes@));
    out
}

/// Strip and validate the 6-byte header, returning a slice into the
/// FlatBuffer payload.  Returns `Err` on a short input, a magic mismatch or
/// an unsupported version, checked in that order.
pub fn decode_nnvis(data: &[u8]) -> (r: Result<&[u8], &'static str>)
    ensures
        match spec_decode(data@) {
            Ok(p) => r matches Ok(q) && q@ == p,
            Err(f) => r matches Err(m) && m@ == spec_failure_message(f),
        },
{
    if data.len() < HEADER_LEN {
        return Err("file too short to contain .nnvis header");
    }
    if data[0] != MAGIC[0] || data[1] != MAGIC[1] || data[2] != MAGIC[2] || data[3] != MAGIC[3] {
        assert(data@.subrange(0, 4) != spec_header().subrange(0, 4)) by {
            if data@.subrange(0, 4) == spec_header().subrange(0, 4) {
                assert(data@[0] == data@.subrange(0, 4)[0]);
                assert(data@[1] == data@.subrange(0, 4)[1]);
                assert(data@[2] == data@.subrange(0, 4)[2]);
                assert(data@[3] == data@.subrange(0, 4)[3]);
            }
        }
        return Err("invalid magic bytes — not a .nnvis file");
    }
    assert(data@.subrange(0, 4) =~= spec_header().subrange(0, 4));
    let version: u16 = data[4] as u16 + 256 * (data[5] as u16);
    if version != VERSION {
        return Err("unsupported .nnvis version");
    }
    Ok(&data[HEADER_LEN..data.len()])
}

/// Decoding an encoded payload gives the payload back.
pub proof fn lemma_decode_encode(payload: Seq<u8>)
    ensures
        spec_decode(spec_encode(payload)) == Ok::<Seq<u8>, DecodeFailure>(payload),
{
    let e = spec_encode(payload);
    assert(e.subrange(0, 4) =~= spec_header().subrange(0, 4));
    assert(e.subrange(6, e.len() as int) =~= payload);
}

/// A byte string that decodes is the encoding of what it decodes to.
pub proof fn lemma_encode_decode(data: Seq<u8>)
    requires
        spec_decode(data) is Ok,
    ensures
        spec_encode(spec_decode(data)->Ok_0) == data,
{
    let p = data.subrange(6, data.len() as int);
    assert(data.subrange(0, 4) == spec_header().subrange(0, 4));
    assert forall|i: int| 0 <= i < 4 implies data[i] == spec_header()[i] by {
        assert(data[i] == data.subrange(0, 4)[i]);
    }
    assert(data[4] == 1u8 && data[5] == 0u8);
    assert(spec_encode(p) =~= data);
}

} // verus!
