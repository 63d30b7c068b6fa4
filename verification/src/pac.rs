//! PAC archive codec: the directory model, the tagged file-body model, the
//! reader that resolves each entry's body by its absolute offset, and the
//! builder that computes offsets once all sizes are known.

use vstd::prelude::*;

verus! {

use vstd::bytes::{
    spec_u32_from_le_bytes, spec_u32_to_le_bytes, lemma_auto_spec_u32_to_from_le_bytes,
};
use vstd::slice::{slice_index_get, slice_subrange, slice_to_vec};
use crate::le::{push_u32_le, read_u32_at};
use crate::errors::{BuildError, CompressionError, EncodingError, FormatError};
use crate::text::{
    decode_sjis, encode_name_field, find_first_zero, has_utf8_bom, pad_name_field, pad_to_width,
    sjis_decode_of, sjis_encode_of, sjis_reversible_text, str_eq, trim_at_zero, zero_free,
    NAME_FIELD_WIDTH,
};
use crate::zlib::{deflate, inflate, zlib_deflate_of, zlib_inflate_of, DEFLATE_LEVEL};

/// Size in bytes of one on-disk directory record: offset, size, name field.
pub const ENTRY_RECORD_SIZE: usize = 64;

/// On-disk overhead of the compressed-bitmap variant: marker plus
/// uncompressed size.
pub const BMZ_HEADER_SIZE: usize = 8;

/// The 4-byte marker that tags the compressed-bitmap body variant.
pub open spec fn bmz_marker() -> Seq<u8> {
    seq![0x5au8, 0x4cu8, 0x43u8, 0x33u8]
}

/// A file stored in an archive: a zlib-compressed bitmap, or opaque bytes.
#[derive(Debug)]
pub enum PacFile {
    /// Bitmap compressed with zlib, tagged on disk by the 4-byte marker
    /// followed by the uncompressed size.
    Bmz { uncompressed_size: u32, compressed_data: Vec<u8> },
    /// Any other file, stored unchanged.
    Other { data: Vec<u8> },
}

/// Mathematical model of a file body.
pub enum PacFileView {
    Bmz { uncompressed_size: u32, compressed_data: Seq<u8> },
    Other { data: Seq<u8> },
}

impl View for PacFile {
    type V = PacFileView;

    open spec fn view(&self) -> PacFileView {
        match self {
            PacFile::Bmz { uncompressed_size, compressed_data } => PacFileView::Bmz {
                uncompressed_size: *uncompressed_size,
                compressed_data: compressed_data@,
            },
            PacFile::Other { data } => PacFileView::Other { data: data@ },
        }
    }
}

/// Serialized size of a body: marker and size field plus payload for the
/// compressed variant, the bare bytes otherwise.
pub open spec fn spec_body_size(f: PacFileView) -> int {
    match f {
        PacFileView::Bmz { compressed_data, .. } => BMZ_HEADER_SIZE + compressed_data.len(),
        PacFileView::Other { data } => data.len() as int,
    }
}

/// Serialized bytes of a body.
pub open spec fn spec_body_bytes(f: PacFileView) -> Seq<u8> {
    match f {
        PacFileView::Bmz { uncompressed_size, compressed_data } => bmz_marker()
            + spec_u32_to_le_bytes(uncompressed_size) + compressed_data,
        PacFileView::Other { data } => data,
    }
}

/// A directory entry as read from an archive: the header fields plus the
/// body resolved from the entry's absolute offset. The name holds the raw
/// Shift-JIS bytes of the fixed-width field up to its first zero byte;
/// decoding is deferred to the fallible [`PacEntryRead::name`] accessor.
#[derive(Debug)]
pub struct PacEntryRead {
    pub offset: u32,
    pub size: u32,
    pub name: Vec<u8>,
    pub file: PacFile,
}

/// Mathematical model of a read directory entry.
pub struct PacEntryView {
    pub offset: u32,
    pub size: u32,
    pub name: Seq<u8>,
    pub file: PacFileView,
}

impl View for PacEntryRead {
    type V = PacEntryView;

    open spec fn view(&self) -> PacEntryView {
        PacEntryView { offset: self.offset, size: self.size, name: self.name@, file: self.file@ }
    }
}

/// An archive read from bytes: the directory with each body resolved.
#[derive(Debug)]
pub struct PacArc {
    pub entries_count: u32,
    pub entries: Vec<PacEntryRead>,
}

/// Mathematical model of a read archive.
pub struct PacArcView {
    pub entries: Seq<PacEntryView>,
}

impl View for PacArc {
    type V = PacArcView;

    open spec fn view(&self) -> PacArcView {
        PacArcView { entries: self.entries@.map_values(|e: PacEntryRead| e@) }
    }
}

/// What parsing a body of the given stored size at the given absolute
/// offset yields: the compressed variant when the bytes at the offset begin
/// with the marker, the raw variant otherwise.
pub open spec fn spec_parse_body(b: Seq<u8>, off: int, size: int) -> Result<
    PacFileView,
    FormatError,
> {
    if off + 4 <= b.len() && b.subrange(off, off + 4) == bmz_marker() {
        if size < BMZ_HEADER_SIZE {
            Err(FormatError::InvalidBody)
        } else if off + size > b.len() {
            Err(FormatError::Truncated)
        } else {
            Ok(
                PacFileView::Bmz {
                    uncompressed_size: spec_u32_from_le_bytes(b.subrange(off + 4, off + 8)),
                    compressed_data: b.subrange(off + BMZ_HEADER_SIZE, off + size),
                },
            )
        }
    } else {
        if off + size > b.len() {
            Err(FormatError::Truncated)
        } else {
            Ok(PacFileView::Other { data: b.subrange(off, off + size) })
        }
    }
}

/// What parsing directory record `i` yields: the header fields at the
/// record's fixed stride, and the body resolved at the stored offset.
pub open spec fn spec_parse_entry(b: Seq<u8>, i: int) -> Result<PacEntryView, FormatError>
    recommends
        0 <= i,
        4 + ENTRY_RECORD_SIZE * (i + 1) <= b.len(),
{
    let h = 4 + ENTRY_RECORD_SIZE * i;
    let offset = spec_u32_from_le_bytes(b.subrange(h, h + 4));
    let size = spec_u32_from_le_bytes(b.subrange(h + 4, h + 8));
    let name = trim_at_zero(b.subrange(h + 8, h + ENTRY_RECORD_SIZE));
    match spec_parse_body(b, offset as int, size as int) {
        Ok(file) => Ok(PacEntryView { offset, size, name, file }),
        Err(e) => Err(e),
    }
}

/// What parsing the first `n` directory records yields: the entries in
/// on-disk order, or the error of the first record that fails.
pub open spec fn spec_parse_entries(b: Seq<u8>, n: int) -> Result<Seq<PacEntryView>, FormatError>
    decreases n,
{
    if n <= 0 {
        Ok(Seq::empty())
    } else {
        match spec_parse_entries(b, n - 1) {
            Ok(es) => match spec_parse_entry(b, n - 1) {
                Ok(e) => Ok(es.push(e)),
                Err(err) => Err(err),
            },
            Err(err) => Err(err),
        }
    }
}

/// What parsing a whole archive yields.
pub open spec fn spec_parse_pac(b: Seq<u8>) -> Result<PacArcView, FormatError> {
    if b.len() < 4 {
        Err(FormatError::Truncated)
    } else {
        let n = spec_u32_from_le_bytes(b.subrange(0, 4));
        if 4 + ENTRY_RECORD_SIZE * (n as int) > b.len() {
            Err(FormatError::Truncated)
        } else {
            match spec_parse_entries(b, n as int) {
                Ok(es) => Ok(PacArcView { entries: es }),
                Err(e) => Err(e),
            }
        }
    }
}

/// Parses one body at its absolute offset.
fn parse_body(b: &[u8], offset: u32, size: u32) -> (r: Result<PacFile, FormatError>)
    ensures
        match r {
            Ok(f) => spec_parse_body(b@, offset as int, size as int) == Ok::<PacFileView, FormatError>(f@),
            Err(e) => spec_parse_body(b@, offset as int, size as int) == Err::<
                PacFileView,
                FormatError,
            >(e),
        },
{
    let len64: u64 = b.len() as u64;
    let off64: u64 = offset as u64;
    let size64: u64 = size as u64;
    let has_marker: bool = if off64 + 4 <= len64 {
        let off: usize = offset as usize;
        let m = *slice_index_get(b, off) == 0x5au8 && *slice_index_get(b, off + 1) == 0x4cu8
            && *slice_index_get(b, off + 2) == 0x43u8 && *slice_index_get(b, off + 3) == 0x33u8;
        proof {
            if m {
                assert(b@.subrange(off as int, off as int + 4) =~= bmz_marker());
            } else {
                if b@.subrange(off as int, off as int + 4) == bmz_marker() {
                    assert(b@[off as int] == 0x5au8) by {
                        assert(b@.subrange(off as int, off as int + 4)[0] == bmz_marker()[0]);
                    }
                    assert(b@[off as int + 1] == 0x4cu8) by {
                        assert(b@.subrange(off as int, off as int + 4)[1] == bmz_marker()[1]);
                    }
                    assert(b@[off as int + 2] == 0x43u8) by {
                        assert(b@.subrange(off as int, off as int + 4)[2] == bmz_marker()[2]);
                    }
                    assert(b@[off as int + 3] == 0x33u8) by {
                        assert(b@.subrange(off as int, off as int + 4)[3] == bmz_marker()[3]);
                    }
                }
            }
        }
        m
    } else {
        false
    };
    if has_marker {
        if size < BMZ_HEADER_SIZE as u32 {
            return Err(FormatError::InvalidBody);
        }
        if off64 + size64 > len64 {
            return Err(FormatError::Truncated);
        }
        let off: usize = offset as usize;
        let end: usize = off + size as usize;
        let uncompressed_size = read_u32_at(b, off + 4);
        let compressed_data = slice_to_vec(slice_subrange(b, off + BMZ_HEADER_SIZE, end));
        Ok(PacFile::Bmz { uncompressed_size, compressed_data })
    } else {
        if off64 + size64 > len64 {
            return Err(FormatError::Truncated);
        }
        let off: usize = offset as usize;
        let data = slice_to_vec(slice_subrange(b, off, off + size as usize));
        Ok(PacFile::Other { data })
    }
}

/// A record that fails to parse makes the whole directory fail with its
/// error, whatever stands after it.
proof fn lemma_parse_entries_err(b: Seq<u8>, i: int, n: int, e: FormatError)
    requires
        0 <= i < n,
        spec_parse_entries(b, i) is Ok,
        spec_parse_entry(b, i) == Err::<PacEntryView, FormatError>(e),
    ensures
        spec_parse_entries(b, n) == Err::<Seq<PacEntryView>, FormatError>(e),
    decreases n,
{
    if n > i + 1 {
        lemma_parse_entries_err(b, i, n - 1, e);
    }
}

impl PacArc {
    /// Parses an archive: the leading count, the fixed-stride directory
    /// records, and each entry's body at its stored absolute offset. Name
    /// decoding is deferred to [`PacEntryRead::name`], so a corrupt name
    /// never makes the parse fail. On success the directory holds exactly
    /// the announced number of entries.
    pub fn parse(bytes: &[u8]) -> (r: Result<PacArc, FormatError>)
        ensures
            match r {
                Ok(arc) => spec_parse_pac(bytes@) == Ok::<PacArcView, FormatError>(arc@) && arc.entries_count as int
                    == arc@.entries.len(),
                Err(e) => spec_parse_pac(bytes@) == Err::<PacArcView, FormatError>(e),
            },
    {
        if bytes.len() < 4 {
            return Err(FormatError::Truncated);
        }
        let count = read_u32_at(bytes, 0);
        let len64: u64 = bytes.len() as u64;
        if 4u64 + (ENTRY_RECORD_SIZE as u64) * (count as u64) > len64 {
            return Err(FormatError::Truncated);
        }
        let n: usize = count as usize;
        let mut entries: Vec<PacEntryRead> = Vec::new();
        let mut i: usize = 0;
        assert(entries@.map_values(|e: PacEntryRead| e@) =~= Seq::<PacEntryView>::empty());
        while i < n
        invariant
            bytes@.len() >= 4,
            bytes@.len() <= usize::MAX,
            count == spec_u32_from_le_bytes(bytes@.subrange(0, 4)),
            n == count as int,
            4 + ENTRY_RECORD_SIZE * (n as int) <= bytes@.len(),
            0 <= i <= n,
            entries@.len() == i,
            spec_parse_entries(bytes@, i as int) == Ok::<Seq<PacEntryView>, FormatError>(
                entries@.map_values(|e: PacEntryRead| e@),
            ),
        decreases n - i,
        {
            let h: usize = 4 + ENTRY_RECORD_SIZE * i;
            let offset = read_u32_at(bytes, h);
            let size = read_u32_at(bytes, h + 4);
            let name_slot = slice_subrange(bytes, h + 8, h + ENTRY_RECORD_SIZE);
            let cut = find_first_zero(name_slot);
            let name = slice_to_vec(slice_subrange(name_slot, 0, cut));
            assert(name@ =~= trim_at_zero(
                bytes@.subrange(h as int + 8, h as int + ENTRY_RECORD_SIZE as int),
            ));
            let file = match parse_body(bytes, offset, size) {
                Ok(f) => f,
                Err(e) => {
                    proof {
                        lemma_parse_entries_err(bytes@, i as int, n as int, e);
                    }
                    return Err(e);
                },
            };
            let entry = PacEntryRead { offset, size, name, file };
            let ghost old_views = entries@.map_values(|e: PacEntryRead| e@);
            entries.push(entry);
            proof {
                assert(entries@.map_values(|e: PacEntryRead| e@) =~= old_views.push(entry@));
            }
            i = i + 1;
        }
        let arc = PacArc { entries_count: count, entries };
        Ok(arc)
    }
}

impl PacEntryRead {
    /// The entry's file name, decoded from its Shift-JIS bytes on demand,
    /// so that one corrupt name does not prevent handling the rest of the
    /// archive.
    pub fn name(&self) -> (r: Result<String, EncodingError>)
        ensures
            match r {
                Ok(s) => sjis_decode_of(self.name@) == Some(s@),
                Err(e) => sjis_decode_of(self.name@) is None && e == EncodingError::Undecodable,
            },
    {
        decode_sjis(self.name.as_slice())
    }
}

/// Outcome of extracting one entry, on its own: its decoded name and
/// extracted bytes, or the failure of exactly this entry.
#[derive(Debug)]
pub enum EntryExtract {
    /// The name decoded and the body was extracted.
    Extracted { name: String, data: Vec<u8> },
    /// The name bytes are not valid Shift-JIS; nothing else was tried.
    NameFailed { error: EncodingError },
    /// The name decoded but the compressed body is malformed.
    DataFailed { name: String, error: CompressionError },
}

/// Mathematical model of one extraction outcome.
pub enum EntryExtractView {
    Extracted { name: Seq<char>, data: Seq<u8> },
    NameFailed { error: EncodingError },
    DataFailed { name: Seq<char>, error: CompressionError },
}

impl View for EntryExtract {
    type V = EntryExtractView;

    open spec fn view(&self) -> EntryExtractView {
        match self {
            EntryExtract::Extracted { name, data } => EntryExtractView::Extracted {
                name: name@,
                data: data@,
            },
            EntryExtract::NameFailed { error } => EntryExtractView::NameFailed { error: *error },
            EntryExtract::DataFailed { name, error } => EntryExtractView::DataFailed {
                name: name@,
                error: *error,
            },
        }
    }
}

/// The one outcome extraction owes an entry: the decoded name and the
/// extracted bytes when both succeed, the name failure when its bytes are
/// malformed, the decompression failure otherwise.
pub open spec fn spec_extract_outcome(e: PacEntryView, o: EntryExtractView) -> bool {
    match o {
        EntryExtractView::Extracted { name, data } => {
            &&& sjis_decode_of(e.name) == Some(name)
            &&& match e.file {
                PacFileView::Bmz { compressed_data, .. } => zlib_inflate_of(compressed_data)
                    == Some(data),
                PacFileView::Other { data: stored } => data == stored,
            }
        },
        EntryExtractView::NameFailed { error } => sjis_decode_of(e.name) is None && error
            == EncodingError::Undecodable,
        EntryExtractView::DataFailed { name, error } => {
            &&& sjis_decode_of(e.name) == Some(name)
            &&& e.file matches PacFileView::Bmz { compressed_data, .. }
            &&& zlib_inflate_of(compressed_data) is None
            &&& error == CompressionError::Malformed
        },
    }
}

impl PacArc {
    /// Extraction plan: one outcome per entry, in directory order, each
    /// computed independently — an entry whose name or body is corrupt
    /// fails alone, and the entries after it are still extracted. The
    /// caller only writes the extracted pairs out.
    pub fn extract_plan(&self) -> (r: Vec<EntryExtract>)
        ensures
            r@.len() == self@.entries.len(),
            forall|i: int|
                0 <= i < r@.len() ==> spec_extract_outcome(
                    self@.entries[i],
                    (#[trigger] r@[i])@,
                ),
    {
        let n: usize = self.entries.len();
        let mut out: Vec<EntryExtract> = Vec::new();
        let mut i: usize = 0;
        while i < n
            invariant
                n == self.entries@.len(),
                0 <= i <= n,
                out@.len() == i,
                forall|k: int|
                    0 <= k < i ==> spec_extract_outcome(
                        self@.entries[k],
                        (#[trigger] out@[k])@,
                    ),
            decreases n - i,
        {
            let entry = &self.entries[i];
            let outcome = match entry.name() {
                Err(error) => EntryExtract::NameFailed { error },
                Ok(name) => match entry.file.converted_data() {
                    Ok(data) => EntryExtract::Extracted { name, data },
                    Err(error) => EntryExtract::DataFailed { name, error },
                },
            };
            proof {
                assert(self@.entries[i as int] == self.entries@[i as int]@);
            }
            out.push(outcome);
            i = i + 1;
        }
        out
    }
}

/// What the converted (extracted) extension is: the compressed-bitmap
/// extension becomes the plain bitmap one, all others pass through.
pub open spec fn spec_converted_ext(orig: Seq<char>) -> Seq<char> {
    if orig == "bmz"@ {
        "bmp"@
    } else {
        orig
    }
}

/// What the original (packed) extension is: the plain bitmap extension
/// becomes the compressed one, all others pass through.
pub open spec fn spec_original_ext(conv: Seq<char>) -> Seq<char> {
    if conv == "bmp"@ {
        "bmz"@
    } else {
        conv
    }
}

impl PacFile {
    /// The stored bytes in extracted form: the compressed variant inflated,
    /// the raw variant copied unchanged.
    pub fn converted_data(&self) -> (r: Result<Vec<u8>, CompressionError>)
        ensures
            match r {
                Ok(d) => match self@ {
                    PacFileView::Bmz { compressed_data, .. } => zlib_inflate_of(compressed_data)
                        == Some(d@),
                    PacFileView::Other { data } => d@ == data,
                },
                Err(e) => {
                    &&& self@ matches PacFileView::Bmz { compressed_data, .. }
                    &&& zlib_inflate_of(compressed_data) is None
                    &&& e == CompressionError::Malformed
                },
            },
    {
        match self {
            PacFile::Bmz { compressed_data, .. } => inflate(compressed_data.as_slice()),
            PacFile::Other { data } => Ok(slice_to_vec(data.as_slice())),
        }
    }

    /// The original (packed) extension for a converted one.
    pub fn original_ext<'a>(conv_ext: &'a str) -> (r: &'a str)
        ensures
            r@ == spec_original_ext(conv_ext@),
    {
        if str_eq(conv_ext, "bmp") {
            "bmz"
        } else {
            conv_ext
        }
    }

    /// The converted (extracted) extension for an original one.
    pub fn converted_ext<'a>(orig_ext: &'a str) -> (r: &'a str)
        ensures
            r@ == spec_converted_ext(orig_ext@),
    {
        if str_eq(orig_ext, "bmz") {
            "bmp"
        } else {
            orig_ext
        }
    }

    /// Wraps extracted bytes back into a body, judging by the converted
    /// extension: bitmaps are deflated into the compressed variant with the
    /// uncompressed size recomputed from the data, everything else is
    /// stored raw.
    pub fn convert_back(data: Vec<u8>, conv_extension: &str) -> (r: Result<PacFile, BuildError>)
        requires
            data@.len() <= u32::MAX,
        ensures
            match r {
                Ok(f) => if conv_extension@ == "bmp"@ {
                    {
                        &&& f@ matches PacFileView::Bmz { uncompressed_size, compressed_data }
                        &&& uncompressed_size as int == data@.len()
                        &&& compressed_data == zlib_deflate_of(DEFLATE_LEVEL, data@)
                        &&& zlib_inflate_of(compressed_data) == Some(data@)
                    }
                } else {
                    f@ == (PacFileView::Other { data: data@ })
                },
                Err(_) => false,
            },
    {
        if str_eq(conv_extension, "bmp") {
            let uncompressed_size: u32 = data.len() as u32;
            let compressed_data = deflate(data.as_slice());
            Ok(PacFile::Bmz { uncompressed_size, compressed_data })
        } else {
            Ok(PacFile::Other { data })
        }
    }

    /// The body's serialized size.
    pub fn size(&self) -> (r: usize)
        requires
            spec_body_size(self@) <= usize::MAX,
        ensures
            r as int == spec_body_size(self@),
    {
        match self {
            PacFile::Bmz { compressed_data, .. } => compressed_data.len() + BMZ_HEADER_SIZE,
            PacFile::Other { data } => data.len(),
        }
    }
}

/// A pending entry of the builder: the encoded name and the body.
pub struct PacEntryWrite {
    pub name: Vec<u8>,
    pub data: PacFile,
}

/// Mathematical model of a pending entry.
pub struct PacEntryWriteView {
    pub name: Seq<u8>,
    pub data: PacFileView,
}

impl View for PacEntryWrite {
    type V = PacEntryWriteView;

    open spec fn view(&self) -> PacEntryWriteView {
        PacEntryWriteView { name: self.name@, data: self.data@ }
    }
}

/// Accumulates entries, then serializes them with computed offsets.
pub struct PacArcBuilder {
    pub entries: Vec<PacEntryWrite>,
}

impl View for PacArcBuilder {
    type V = Seq<PacEntryWriteView>;

    open spec fn view(&self) -> Seq<PacEntryWriteView> {
        self.entries@.map_values(|e: PacEntryWrite| e@)
    }
}

/// Every pending name's encoding leaves room for the terminator byte in
/// the fixed-width field.
pub open spec fn builder_wf(es: Seq<PacEntryWriteView>) -> bool {
    forall|i: int| 0 <= i < es.len() ==> es[i].name.len() < NAME_FIELD_WIDTH
}

/// Total serialized size of the bodies of the first `n` entries.
pub open spec fn sum_body_sizes(es: Seq<PacEntryWriteView>, n: int) -> int
    decreases n,
{
    if n <= 0 {
        0
    } else {
        sum_body_sizes(es, n - 1) + spec_body_size(es[n - 1].data)
    }
}

/// Offset of the first body: the count field plus the header block.
pub open spec fn spec_base_offset(es: Seq<PacEntryWriteView>) -> int {
    4 + ENTRY_RECORD_SIZE * es.len()
}

/// Absolute offset of entry `i`'s body: the base plus all preceding bodies.
pub open spec fn spec_entry_offset(es: Seq<PacEntryWriteView>, i: int) -> int {
    spec_base_offset(es) + sum_body_sizes(es, i)
}

/// Total serialized size of the archive.
pub open spec fn spec_total_size(es: Seq<PacEntryWriteView>) -> int {
    spec_base_offset(es) + sum_body_sizes(es, es.len() as int)
}

/// The archive is serializable: every offset fits the 32-bit fields.
pub open spec fn spec_pack_ok(es: Seq<PacEntryWriteView>) -> bool {
    es.len() <= u32::MAX && spec_total_size(es) <= u32::MAX
}

/// Serialized directory record of entry `i`.
pub open spec fn spec_header_record(es: Seq<PacEntryWriteView>, i: int) -> Seq<u8> {
    spec_u32_to_le_bytes(spec_entry_offset(es, i) as u32) + spec_u32_to_le_bytes(
        spec_body_size(es[i].data) as u32,
    ) + pad_to_width(es[i].name, NAME_FIELD_WIDTH as int)
}

/// Serialized header block of the first `n` entries.
pub open spec fn spec_header_block(es: Seq<PacEntryWriteView>, n: int) -> Seq<u8>
    decreases n,
{
    if n <= 0 {
        Seq::empty()
    } else {
        spec_header_block(es, n - 1) + spec_header_record(es, n - 1)
    }
}

/// Serialized body block of the first `n` entries.
pub open spec fn spec_body_block(es: Seq<PacEntryWriteView>, n: int) -> Seq<u8>
    decreases n,
{
    if n <= 0 {
        Seq::empty()
    } else {
        spec_body_block(es, n - 1) + spec_body_bytes(es[n - 1].data)
    }
}

/// The whole serialized archive: count, header block, body block.
pub open spec fn spec_pac_bytes(es: Seq<PacEntryWriteView>) -> Seq<u8> {
    spec_u32_to_le_bytes(es.len() as u32) + spec_header_block(es, es.len() as int)
        + spec_body_block(es, es.len() as int)
}

/// Body sizes are never negative.
proof fn lemma_sum_nonneg(es: Seq<PacEntryWriteView>, n: int)
    ensures
        sum_body_sizes(es, n) >= 0,
    decreases n,
{
    if n > 0 {
        lemma_sum_nonneg(es, n - 1);
    }
}

/// Partial body sums grow with the index.
proof fn lemma_sum_mono(es: Seq<PacEntryWriteView>, i: int, n: int)
    requires
        0 <= i <= n,
    ensures
        sum_body_sizes(es, i) <= sum_body_sizes(es, n),
    decreases n - i,
{
    if n > i {
        lemma_sum_mono(es, i, n - 1);
    }
}

/// Serialized bytes of a body are exactly its serialized size.
proof fn lemma_body_bytes_len(f: PacFileView)
    ensures
        spec_body_bytes(f).len() == spec_body_size(f),
{
    lemma_auto_spec_u32_to_from_le_bytes();
}

/// The header block of `n` entries is `n` fixed-size records long.
proof fn lemma_header_block_len(es: Seq<PacEntryWriteView>, n: int)
    requires
        builder_wf(es),
        0 <= n <= es.len(),
    ensures
        spec_header_block(es, n).len() == ENTRY_RECORD_SIZE * n,
    decreases n,
{
    if n > 0 {
        lemma_header_block_len(es, n - 1);
        lemma_auto_spec_u32_to_from_le_bytes();
    }
}

/// Byte `k` of record `i` inside the header block.
proof fn lemma_header_block_index(es: Seq<PacEntryWriteView>, n: int, i: int, k: int)
    requires
        builder_wf(es),
        0 <= i < n <= es.len(),
        0 <= k < ENTRY_RECORD_SIZE,
    ensures
        spec_header_block(es, n)[ENTRY_RECORD_SIZE * i + k] == spec_header_record(es, i)[k],
    decreases n,
{
    lemma_auto_spec_u32_to_from_le_bytes();
    lemma_header_block_len(es, n - 1);
    if i < n - 1 {
        lemma_header_block_index(es, n - 1, i, k);
    }
}

/// The body block of `n` entries is as long as their sizes' sum.
proof fn lemma_body_block_len(es: Seq<PacEntryWriteView>, n: int)
    requires
        0 <= n <= es.len(),
    ensures
        spec_body_block(es, n).len() == sum_body_sizes(es, n),
    decreases n,
{
    if n > 0 {
        lemma_body_block_len(es, n - 1);
        lemma_body_bytes_len(es[n - 1].data);
    }
}

/// Byte `j` of body `i` inside the body block.
proof fn lemma_body_block_index(es: Seq<PacEntryWriteView>, n: int, i: int, j: int)
    requires
        0 <= i < n <= es.len(),
        0 <= j < spec_body_size(es[i].data),
    ensures
        spec_body_block(es, n)[sum_body_sizes(es, i) + j] == spec_body_bytes(es[i].data)[j],
    decreases n,
{
    lemma_body_block_len(es, n - 1);
    lemma_body_bytes_len(es[n - 1].data);
    if i < n - 1 {
        lemma_body_block_index(es, n - 1, i, j);
        lemma_sum_mono(es, i + 1, n - 1);
        lemma_sum_nonneg(es, i);
    }
}

/// The entry the reader recovers from an archive the builder serialized.
pub open spec fn expected_entry(es: Seq<PacEntryWriteView>, i: int) -> PacEntryView {
    PacEntryView {
        offset: spec_entry_offset(es, i) as u32,
        size: spec_body_size(es[i].data) as u32,
        name: es[i].name,
        file: es[i].data,
    }
}

/// No entry defeats re-parsing: names are zero-free, and a raw body cannot
/// be mistaken for the compressed variant (it is at least as long as the
/// marker and does not begin with it).
pub open spec fn round_trip_safe(es: Seq<PacEntryWriteView>) -> bool {
    forall|i: int| 0 <= i < es.len() ==> {
        &&& zero_free((#[trigger] es[i]).name)
        &&& (es[i].data matches PacFileView::Other { data } ==> data.len() >= 4 && data.subrange(
            0,
            4,
        ) != bmz_marker())
    }
}

/// Parsing record `i` of a serialized archive recovers entry `i`.
proof fn lemma_parse_built_entry(es: Seq<PacEntryWriteView>, i: int)
    requires
        builder_wf(es),
        spec_pack_ok(es),
        round_trip_safe(es),
        0 <= i < es.len(),
    ensures
        spec_parse_entry(spec_pac_bytes(es), i) == Ok::<PacEntryView, FormatError>(
            expected_entry(es, i),
        ),
{
    lemma_auto_spec_u32_to_from_le_bytes();
    let b = spec_pac_bytes(es);
    let n = es.len() as int;
    let a = spec_u32_to_le_bytes(es.len() as u32);
    let hb = spec_header_block(es, n);
    let bb = spec_body_block(es, n);
    lemma_header_block_len(es, n);
    lemma_body_block_len(es, n);
    lemma_sum_nonneg(es, i);
    lemma_sum_mono(es, i + 1, n);
    let h = 4 + ENTRY_RECORD_SIZE * i;
    let rec = spec_header_record(es, i);
    let e_off = spec_entry_offset(es, i);
    let e_size = spec_body_size(es[i].data);
    assert(0 <= e_off && e_off + e_size <= b.len());
    assert(e_size <= u32::MAX);

    // Header bytes of record i: each field is a subrange of the record.
    assert forall|k: int| 0 <= k < 4 implies #[trigger] b.subrange(h, h + 4)[k]
        == spec_u32_to_le_bytes(e_off as u32)[k] by {
        lemma_header_block_index(es, n, i, k);
        assert(b[h + k] == hb[ENTRY_RECORD_SIZE * i + k]);
        assert(rec[k] == spec_u32_to_le_bytes(e_off as u32)[k]);
    }
    assert(b.subrange(h, h + 4) =~= spec_u32_to_le_bytes(e_off as u32));
    assert forall|k: int| 0 <= k < 4 implies #[trigger] b.subrange(h + 4, h + 8)[k]
        == spec_u32_to_le_bytes(e_size as u32)[k] by {
        lemma_header_block_index(es, n, i, 4 + k);
        assert(b[h + (4 + k)] == hb[ENTRY_RECORD_SIZE * i + (4 + k)]);
        assert(rec[4 + k] == spec_u32_to_le_bytes(e_size as u32)[k]);
    }
    assert(b.subrange(h + 4, h + 8) =~= spec_u32_to_le_bytes(e_size as u32));
    let pad = pad_to_width(es[i].name, NAME_FIELD_WIDTH as int);
    assert forall|k: int| 0 <= k < 56 implies #[trigger] b.subrange(
        h + 8,
        h + ENTRY_RECORD_SIZE as int,
    )[k] == pad[k] by {
        lemma_header_block_index(es, n, i, 8 + k);
        assert(b[h + (8 + k)] == hb[ENTRY_RECORD_SIZE * i + (8 + k)]);
        assert(rec[8 + k] == pad[k]);
    }
    assert(b.subrange(h + 8, h + ENTRY_RECORD_SIZE as int) =~= pad);
    crate::text::lemma_trim_of_padded(es[i].name, NAME_FIELD_WIDTH as int);

    // Body bytes of entry i.
    let bbase = 4 + ENTRY_RECORD_SIZE * n;
    let body = spec_body_bytes(es[i].data);
    let s0 = sum_body_sizes(es, i);
    lemma_body_bytes_len(es[i].data);
    assert forall|j: int| 0 <= j < e_size implies #[trigger] b.subrange(e_off, e_off + e_size)[j]
        == body[j] by {
        lemma_body_block_index(es, n, i, j);
        assert(b[bbase + (s0 + j)] == bb[s0 + j]);
        assert(e_off + j == bbase + (s0 + j));
        assert(b[e_off + j] == body[j]);
    }
    assert(b.subrange(e_off, e_off + e_size) =~= body);
    match es[i].data {
        PacFileView::Bmz { uncompressed_size, compressed_data } => {
            assert forall|k: int| 0 <= k < 4 implies #[trigger] b.subrange(e_off, e_off + 4)[k]
                == bmz_marker()[k] by {
                assert(b.subrange(e_off, e_off + e_size)[k] == body[k]);
                assert(body[k] == bmz_marker()[k]);
            }
            assert(b.subrange(e_off, e_off + 4) =~= bmz_marker());
            assert forall|k: int| 0 <= k < 4 implies #[trigger] b.subrange(e_off + 4, e_off + 8)[k]
                == spec_u32_to_le_bytes(uncompressed_size)[k] by {
                assert(b.subrange(e_off, e_off + e_size)[4 + k] == body[4 + k]);
                assert(body[4 + k] == spec_u32_to_le_bytes(uncompressed_size)[k]);
            }
            assert(b.subrange(e_off + 4, e_off + 8) =~= spec_u32_to_le_bytes(uncompressed_size));
            assert forall|j: int| 0 <= j < e_size - 8 implies #[trigger] b.subrange(
                e_off + BMZ_HEADER_SIZE as int,
                e_off + e_size,
            )[j] == compressed_data[j] by {
                assert(b.subrange(e_off, e_off + e_size)[8 + j] == body[8 + j]);
                assert(body[8 + j] == compressed_data[j]);
            }
            assert(b.subrange(e_off + BMZ_HEADER_SIZE as int, e_off + e_size) =~= compressed_data);
        },
        PacFileView::Other { data } => {
            assert forall|k: int| 0 <= k < 4 implies #[trigger] b.subrange(e_off, e_off + 4)[k]
                == data.subrange(0, 4)[k] by {
                assert(b.subrange(e_off, e_off + e_size)[k] == body[k]);
            }
            assert(b.subrange(e_off, e_off + 4) =~= data.subrange(0, 4));
            assert(b.subrange(e_off, e_off + e_size) =~= data);
        },
    }
}

/// Parsing the first `m` records of a serialized archive recovers the
/// first `m` entries.
proof fn lemma_parse_built_entries(es: Seq<PacEntryWriteView>, m: int)
    requires
        builder_wf(es),
        spec_pack_ok(es),
        round_trip_safe(es),
        0 <= m <= es.len(),
    ensures
        spec_parse_entries(spec_pac_bytes(es), m) == Ok::<Seq<PacEntryView>, FormatError>(
            Seq::new(m as nat, |i: int| expected_entry(es, i)),
        ),
    decreases m,
{
    if m > 0 {
        lemma_parse_built_entries(es, m - 1);
        lemma_parse_built_entry(es, m - 1);
        assert(Seq::new(m as nat, |i: int| expected_entry(es, i)) =~= Seq::new(
            (m - 1) as nat,
            |i: int| expected_entry(es, i),
        ).push(expected_entry(es, m - 1)));
    } else {
        assert(Seq::new(0, |i: int| expected_entry(es, i)) =~= Seq::<PacEntryView>::empty());
    }
}

/// Round trip: an archive the builder serializes parses back to the same
/// directory — the same entry count, and entry by entry the same name
/// bytes, the same body, the body's exact size, and the computed offset.
pub proof fn lemma_pack_parse_round_trip(es: Seq<PacEntryWriteView>)
    requires
        builder_wf(es),
        spec_pack_ok(es),
        round_trip_safe(es),
    ensures
        ({
            let r = spec_parse_pac(spec_pac_bytes(es));
            &&& r matches Ok(av)
            &&& av.entries.len() == es.len()
            &&& forall|i: int|
                0 <= i < es.len() ==> {
                    &&& (#[trigger] av.entries[i]).name == es[i].name
                    &&& av.entries[i].file == es[i].data
                    &&& av.entries[i].size as int == spec_body_size(es[i].data)
                    &&& av.entries[i].offset as int == spec_entry_offset(es, i)
                }
        }),
{
    lemma_auto_spec_u32_to_from_le_bytes();
    let b = spec_pac_bytes(es);
    let n = es.len() as int;
    lemma_header_block_len(es, n);
    lemma_body_block_len(es, n);
    lemma_sum_nonneg(es, n);
    assert(b.subrange(0, 4) =~= spec_u32_to_le_bytes(es.len() as u32));
    assert(spec_u32_from_le_bytes(b.subrange(0, 4)) as int == n);
    lemma_parse_built_entries(es, n);
    let av = spec_parse_pac(b)->Ok_0;
    assert forall|i: int| 0 <= i < es.len() implies {
        &&& (#[trigger] av.entries[i]).name == es[i].name
        &&& av.entries[i].file == es[i].data
        &&& av.entries[i].size as int == spec_body_size(es[i].data)
        &&& av.entries[i].offset as int == spec_entry_offset(es, i)
    } by {
        lemma_sum_nonneg(es, i);
        lemma_sum_mono(es, i, n);
        lemma_sum_mono(es, i + 1, n);
        assert(av.entries[i] == expected_entry(es, i));
    }
}

/// A parsed compressed-variant body of stored size `size` carries exactly
/// `size` minus the fixed overhead as its compressed payload.
pub proof fn lemma_bmz_payload_size(b: Seq<u8>, off: int, size: int)
    requires
        0 <= off,
        spec_parse_body(b, off, size) matches Ok(f) && f is Bmz,
    ensures
        spec_parse_body(b, off, size) matches Ok(f) && (f matches PacFileView::Bmz {
            compressed_data,
            ..
        } && compressed_data.len() == size - BMZ_HEADER_SIZE),
{
}

impl PacArcBuilder {
    /// Creates an empty builder.
    pub fn new() -> (r: Self)
        ensures
            r@ =~= Seq::<PacEntryWriteView>::empty(),
            r.wf(),
    {
        PacArcBuilder { entries: Vec::new() }
    }

    /// Every pending entry's name fits the fixed-width field.
    pub open spec fn wf(self) -> bool {
        builder_wf(self@)
    }

    /// Validates that the name's Shift-JIS encoding leaves room for the
    /// terminator, then appends the entry.
    pub fn add_entry(&mut self, file: PacFile, name: &str) -> (r: Result<(), BuildError>)
        requires
            old(self).wf(),
        ensures
            final(self).wf(),
            match r {
                Ok(()) => {
                    &&& sjis_encode_of(name@) matches Some(b)
                    &&& b.len() < NAME_FIELD_WIDTH
                    &&& final(self)@ == old(self)@.push(
                        PacEntryWriteView { name: b, data: file@ },
                    )
                    &&& (b.contains(0u8) <==> name@.contains('\0'))
                    &&& (!name@.contains('\0') && sjis_reversible_text(name@) && !has_utf8_bom(b)
                        ==> sjis_decode_of(
                        trim_at_zero(pad_to_width(b, NAME_FIELD_WIDTH as int)),
                    ) == Some(name@))
                },
                Err(BuildError::NameEncoding) => sjis_encode_of(name@) is None && final(self)@
                    == old(self)@,
                Err(BuildError::NameTooLong) => {
                    &&& sjis_encode_of(name@) matches Some(b)
                    &&& b.len() >= NAME_FIELD_WIDTH
                    &&& final(self)@ == old(self)@
                },
                Err(_) => false,
            },
    {
        let enc = match encode_name_field(name) {
            Ok(b) => b,
            Err(e) => {
                return Err(e);
            },
        };
        let ghost old_views = self@;
        let ghost enc_view = enc@;
        self.entries.push(PacEntryWrite { name: enc, data: file });
        proof {
            assert(self@ =~= old_views.push(PacEntryWriteView { name: enc_view, data: file@ }));
        }
        Ok(())
    }

    /// Serialized size of entry `i`'s body, bounded enough to add. Returns
    /// `None` when the body alone cannot fit a 32-bit size field.
    fn body_size64(&self, i: usize) -> (r: Option<u64>)
        requires
            i < self.entries@.len(),
        ensures
            match r {
                Some(s) => s as int == spec_body_size(self@[i as int].data) && s <= u32::MAX,
                None => spec_body_size(self@[i as int].data) > u32::MAX,
            },
    {
        match &self.entries[i].data {
            PacFile::Bmz { compressed_data, .. } => {
                let len64: u64 = compressed_data.len() as u64;
                if len64 > (u32::MAX as u64) - (BMZ_HEADER_SIZE as u64) {
                    None
                } else {
                    Some(len64 + BMZ_HEADER_SIZE as u64)
                }
            },
            PacFile::Other { data } => {
                let len64: u64 = data.len() as u64;
                if len64 > u32::MAX as u64 {
                    None
                } else {
                    Some(len64)
                }
            },
        }
    }

    /// Serializes the archive. Offsets are assigned only once every body's
    /// size is known: a measuring pass computes the total, then the count,
    /// the header block with its computed offsets, and the body block are
    /// written in insertion order.
    pub fn pack(self) -> (r: Result<Vec<u8>, BuildError>)
        requires
            self.wf(),
        ensures
            match r {
                Ok(out) => spec_pack_ok(self@) && out@ == spec_pac_bytes(self@),
                Err(e) => e == BuildError::TooLarge && !spec_pack_ok(self@),
            },
    {
        let n: usize = self.entries.len();
        if n as u64 > u32::MAX as u64 {
            return Err(BuildError::TooLarge);
        }
        // Measuring pass: sizes before any offset.
        let mut total: u64 = 4 + (ENTRY_RECORD_SIZE as u64) * (n as u64);
        if total > u32::MAX as u64 {
            proof {
                lemma_sum_nonneg(self@, n as int);
            }
            return Err(BuildError::TooLarge);
        }
        let mut i: usize = 0;
        while i < n
            invariant
                self.wf(),
                n == self.entries@.len(),
                n <= u32::MAX,
                0 <= i <= n,
                total as int == spec_base_offset(self@) + sum_body_sizes(self@, i as int),
                total <= u32::MAX,
            decreases n - i,
        {
            let sz = match self.body_size64(i) {
                Some(s) => s,
                None => {
                    proof {
                        lemma_sum_nonneg(self@, i as int);
                        lemma_sum_mono(self@, i as int + 1, n as int);
                    }
                    return Err(BuildError::TooLarge);
                },
            };
            total = total + sz;
            if total > u32::MAX as u64 {
                proof {
                    lemma_sum_mono(self@, i as int + 1, n as int);
                }
                return Err(BuildError::TooLarge);
            }
            i = i + 1;
        }
        // Header pass: each offset is the running total of what precedes.
        let mut out: Vec<u8> = Vec::new();
        push_u32_le(&mut out, n as u32);
        assert(out@ =~= spec_u32_to_le_bytes(n as u32) + spec_header_block(self@, 0));
        let mut off: u64 = 4 + (ENTRY_RECORD_SIZE as u64) * (n as u64);
        let mut i: usize = 0;
        while i < n
            invariant
                self.wf(),
                n == self.entries@.len(),
                n <= u32::MAX,
                0 <= i <= n,
                total as int == spec_total_size(self@),
                total <= u32::MAX,
                off as int == spec_entry_offset(self@, i as int),
                out@ == spec_u32_to_le_bytes(n as u32) + spec_header_block(self@, i as int),
            decreases n - i,
        {
            proof {
                lemma_sum_mono(self@, i as int + 1, n as int);
                lemma_sum_nonneg(self@, i as int);
            }
            let sz = match self.body_size64(i) {
                Some(s) => s,
                None => {
                    proof {
                        assert(false);
                    }
                    return Err(BuildError::TooLarge);
                },
            };
            push_u32_le(&mut out, off as u32);
            push_u32_le(&mut out, sz as u32);
            let mut padded = pad_name_field(self.entries[i].name.as_slice());
            out.append(&mut padded);
            proof {
                assert(out@ =~= spec_u32_to_le_bytes(n as u32) + spec_header_block(
                    self@,
                    i as int + 1,
                ));
            }
            off = off + sz;
            i = i + 1;
        }
        // Body pass, in the same order.
        assert(out@ =~= spec_u32_to_le_bytes(n as u32) + spec_header_block(self@, n as int)
            + spec_body_block(self@, 0));
        let mut i: usize = 0;
        while i < n
            invariant
                self.wf(),
                n == self.entries@.len(),
                n <= u32::MAX,
                0 <= i <= n,
                total as int == spec_total_size(self@),
                total <= u32::MAX,
                out@ == spec_u32_to_le_bytes(n as u32) + spec_header_block(self@, n as int)
                    + spec_body_block(self@, i as int),
            decreases n - i,
        {
            match &self.entries[i].data {
                PacFile::Bmz { uncompressed_size, compressed_data } => {
                    out.push(0x5au8);
                    out.push(0x4cu8);
                    out.push(0x43u8);
                    out.push(0x33u8);
                    push_u32_le(&mut out, *uncompressed_size);
                    let mut payload = slice_to_vec(compressed_data.as_slice());
                    out.append(&mut payload);
                },
                PacFile::Other { data } => {
                    let mut payload = slice_to_vec(data.as_slice());
                    out.append(&mut payload);
                },
            }
            proof {
                assert(out@ =~= spec_u32_to_le_bytes(n as u32) + spec_header_block(self@, n as int)
                    + spec_body_block(self@, i as int + 1));
            }
            i = i + 1;
        }
        proof {
            assert(out@ =~= spec_pac_bytes(self@));
        }
        Ok(out)
    }
}

} // verus!
