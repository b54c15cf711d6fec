//! Top-level framing: the file definition, the compression-header model,
//! and the data container that groups slices.

use vstd::prelude::*;

use crate::error::DecodeError;
use crate::slice::Slice;

verus! {

/// The byte length of a file definition.
pub const FILE_DEFINITION_LEN: usize = 26;

/// The fixed 26-byte prelude of a stream: magic, format version, and an
/// opaque 20-byte file id.
#[derive(Clone, Debug, PartialEq, Eq)]
pub struct FileDefinition {
    /// The major format version.
    pub major: u8,
    /// The minor format version.
    pub minor: u8,
    /// The opaque file id.
    pub file_id: Vec<u8>,
}

/// Whether the four bytes at `i` spell the `CRAM` magic.
pub open spec fn magic_at(s: Seq<u8>, i: int) -> bool {
    s[i] == 0x43 && s[i + 1] == 0x52 && s[i + 2] == 0x41 && s[i + 3] == 0x4D
}

/// Whether a major format version is one this decoder handles.
pub open spec fn version_supported(major: u8) -> bool {
    major == 2 || major == 3
}

/// Parses the 26-byte file definition: `CRAM` magic, major and minor
/// version bytes, and the 20-byte file id.
pub fn parse_file_definition(src: &[u8], pos: &mut usize) -> (r: Result<
    FileDefinition,
    DecodeError,
>)
    ensures
        match r {
            Ok(fd) => {
                &&& *old(pos) + FILE_DEFINITION_LEN <= src@.len()
                &&& magic_at(src@, *old(pos) as int)
                &&& fd.major == src@[*old(pos) + 4]
                &&& fd.minor == src@[*old(pos) + 5]
                &&& version_supported(fd.major)
                &&& fd.file_id@ == src@.subrange(*old(pos) + 6, *old(pos) + 26)
                &&& *final(pos) == *old(pos) + FILE_DEFINITION_LEN
            },
            Err(e) => {
                &&& (e == DecodeError::Truncated <==> *old(pos) + FILE_DEFINITION_LEN
                    > src@.len())
                &&& (e == DecodeError::InvalidMagic <==> *old(pos) + FILE_DEFINITION_LEN
                    <= src@.len() && !magic_at(src@, *old(pos) as int))
                &&& (e == DecodeError::UnsupportedVersion <==> *old(pos) + FILE_DEFINITION_LEN
                    <= src@.len() && magic_at(src@, *old(pos) as int) && !version_supported(
                    src@[*old(pos) + 4],
                ))
                &&& (e == DecodeError::Truncated || e == DecodeError::InvalidMagic || e
                    == DecodeError::UnsupportedVersion)
            },
        },
        (*old(pos) + FILE_DEFINITION_LEN <= src@.len() && magic_at(src@, *old(pos) as int)
            && version_supported(src@[*old(pos) + 4])) <==> r is Ok,
{
    if src.len() < FILE_DEFINITION_LEN || *pos > src.len() - FILE_DEFINITION_LEN {
        return Err(DecodeError::Truncated);
    }
    let p = *pos;
    if src[p] != 0x43 || src[p + 1] != 0x52 || src[p + 2] != 0x41 || src[p + 3] != 0x4D {
        return Err(DecodeError::InvalidMagic);
    }
    let major = src[p + 4];
    let minor = src[p + 5];
    if !(major == 2 || major == 3) {
        return Err(DecodeError::UnsupportedVersion);
    }
    let mut file_id: Vec<u8> = Vec::new();
    let endk = p + 26;
    let mut k: usize = p + 6;
    while k < endk
        invariant
            endk == p + 26,
            p + 26 <= src@.len(),
            p + 6 <= k <= p + 26,
            file_id@ == src@.subrange(p + 6, k as int),
        decreases p + 26 - k,
    {
        file_id.push(src[k]);
        k = k + 1;
        proof {
            assert(file_id@ =~= src@.subrange(p + 6, k as int));
        }
    }
    *pos = p + 26;
    Ok(FileDefinition { major, minor, file_id })
}

/// The preservation map and series tables of one container's compression
/// header, with tag keys as three raw bytes.
pub struct CompressionHeader {
    /// Whether read names are preserved in the stream.
    pub preserve_read_names: bool,
    /// Whether alignment starts are coded as deltas.
    pub ap_data_series_delta: bool,
    /// Whether decoding needs the reference.
    pub reference_required: bool,
    /// The 5-by-4 substitution code matrix, row-major.
    pub substitution_matrix: Vec<u8>,
    /// The tag-id dictionary: one key list per tag line.
    pub tag_ids_dictionary: Vec<Vec<(u8, u8, u8)>>,
}

impl CompressionHeader {
    /// Assembles a compression header.
    pub fn new(
        preserve_read_names: bool,
        ap_data_series_delta: bool,
        reference_required: bool,
        substitution_matrix: Vec<u8>,
        tag_ids_dictionary: Vec<Vec<(u8, u8, u8)>>,
    ) -> (r: CompressionHeader)
        requires
            substitution_matrix@.len() == 20,
        ensures
            r.preserve_read_names == preserve_read_names,
            r.ap_data_series_delta == ap_data_series_delta,
            r.reference_required == reference_required,
            r.substitution_matrix@ == substitution_matrix@,
            r.tag_ids_dictionary@ == tag_ids_dictionary@,
    {
        CompressionHeader {
            preserve_read_names,
            ap_data_series_delta,
            reference_required,
            substitution_matrix,
            tag_ids_dictionary,
        }
    }
}

/// A data container: one compression header governing a list of slices.
pub struct DataContainer {
    compression_header: CompressionHeader,
    slices: Vec<Slice>,
}

impl DataContainer {
    /// The compression header, for specifications.
    pub closed spec fn spec_compression_header(self) -> CompressionHeader {
        self.compression_header
    }

    /// The slices, for specifications.
    pub closed spec fn spec_slices(self) -> Vec<Slice> {
        self.slices
    }

    /// Assembles a data container.
    pub fn new(compression_header: CompressionHeader, slices: Vec<Slice>) -> (r: DataContainer)
        ensures
            r.spec_compression_header() == compression_header,
            r.spec_slices() == slices,
    {
        DataContainer { compression_header, slices }
    }

    /// Returns the compression header.
    pub fn compression_header(&self) -> (r: &CompressionHeader)
        ensures
            *r == self.spec_compression_header(),
    {
        &self.compression_header
    }

    /// Returns the list of slices.
    pub fn slices(&self) -> (r: &Vec<Slice>)
        ensures
            *r == self.spec_slices(),
    {
        &self.slices
    }
}

} // verus!
