//! TTP animation-metadata codec: a header, frames of length-prefixed
//! Shift-JIS resource names with fixed numeric fields, and a trailing flag
//! byte present for exactly one header kind.

use vstd::prelude::*;

verus! {

use vstd::bytes::{
    spec_u32_from_le_bytes, spec_u32_to_le_bytes, lemma_auto_spec_u32_to_from_le_bytes,
};
use vstd::slice::{slice_index_get, slice_subrange, slice_to_vec};
use crate::errors::{EncodingError, FormatError};
use crate::le::{push_u32_le, read_u32_at};
use crate::text::{decode_sjis, encode_sjis, sjis_decode_of, sjis_encode_of};

/// Variable-length Shift-JIS-encoded resource name: a length prefix and the
/// raw encoded bytes, with no terminator. The prefix always equals the byte
/// count; serialization recomputes it from the bytes.
#[derive(Debug, PartialEq, Eq)]
pub struct ResName {
    len: u32,
    sj_bytes: Vec<u8>,
}

impl View for ResName {
    type V = Seq<u8>;

    closed spec fn view(&self) -> Seq<u8> {
        self.sj_bytes@
    }
}

impl ResName {
    /// The length prefix matches the stored bytes.
    pub closed spec fn wf(self) -> bool {
        self.len as int == self.sj_bytes@.len()
    }

    /// A well-formed name's bytes fit the 32-bit length prefix.
    pub proof fn lemma_wf_len_bound(self)
        requires
            self.wf(),
        ensures
            self@.len() <= u32::MAX,
    {
    }

    /// Builds a resource name from text, encoding it as Shift-JIS.
    pub fn from_text(text: &str) -> (r: Result<ResName, EncodingError>)
        ensures
            match r {
                Ok(name) => {
                    &&& name.wf()
                    &&& sjis_encode_of(text@) == Some(name@)
                    &&& name@.len() <= u32::MAX
                },
                Err(e) => (sjis_encode_of(text@) is None || (sjis_encode_of(text@) matches Some(b)
                    && b.len() > u32::MAX)) && e == EncodingError::Unencodable,
            },
    {
        let b = encode_sjis(text)?;
        if b.len() as u64 > u32::MAX as u64 {
            return Err(EncodingError::Unencodable);
        }
        let l: u32 = b.len() as u32;
        Ok(ResName { len: l, sj_bytes: b })
    }

    /// The name decoded back to text, failing on malformed bytes.
    pub fn decoded(&self) -> (r: Result<String, EncodingError>)
        ensures
            match r {
                Ok(s) => sjis_decode_of(self@) == Some(s@),
                Err(e) => sjis_decode_of(self@) is None && e == EncodingError::Undecodable,
            },
    {
        decode_sjis(self.sj_bytes.as_slice())
    }

    /// The raw encoded bytes.
    pub fn raw_bytes(&self) -> (r: &[u8])
        ensures
            r@ == self@,
    {
        self.sj_bytes.as_slice()
    }
}

/// One frame: three resource names and five numeric fields whose exact
/// meaning is unknown; only their binary shape is fixed.
#[derive(Debug, PartialEq, Eq)]
pub struct TtpFrame {
    pub sprite_name: ResName,
    pub se_name: ResName,
    pub textbox_name: ResName,
    pub delay_ms: u32,
    pub x_offset_textbox: u32,
    pub y_offset_textbox: u32,
    pub x_offset: u32,
    pub y_offset: u32,
}

/// Mathematical model of a frame.
pub struct TtpFrameView {
    pub sprite_name: Seq<u8>,
    pub se_name: Seq<u8>,
    pub textbox_name: Seq<u8>,
    pub delay_ms: u32,
    pub x_offset_textbox: u32,
    pub y_offset_textbox: u32,
    pub x_offset: u32,
    pub y_offset: u32,
}

impl View for TtpFrame {
    type V = TtpFrameView;

    open spec fn view(&self) -> TtpFrameView {
        TtpFrameView {
            sprite_name: self.sprite_name@,
            se_name: self.se_name@,
            textbox_name: self.textbox_name@,
            delay_ms: self.delay_ms,
            x_offset_textbox: self.x_offset_textbox,
            y_offset_textbox: self.y_offset_textbox,
            x_offset: self.x_offset,
            y_offset: self.y_offset,
        }
    }
}

impl TtpFrame {
    /// Every name's length prefix matches its bytes.
    pub open spec fn wf(self) -> bool {
        self.sprite_name.wf() && self.se_name.wf() && self.textbox_name.wf()
    }
}

/// An animation file: the header, its frames, and the trailing flag byte
/// present exactly when the kind field is 3.
#[derive(Debug, PartialEq, Eq)]
pub struct TtpFile {
    pub maybe_ttp_type: u32,
    pub frame_count: u32,
    pub window_width: u32,
    pub window_height: u32,
    pub frames: Vec<TtpFrame>,
    pub unk_bool: Option<u8>,
}

/// Mathematical model of an animation file.
pub struct TtpFileView {
    pub maybe_ttp_type: u32,
    pub frame_count: u32,
    pub window_width: u32,
    pub window_height: u32,
    pub frames: Seq<TtpFrameView>,
    pub unk_bool: Option<u8>,
}

impl View for TtpFile {
    type V = TtpFileView;

    open spec fn view(&self) -> TtpFileView {
        TtpFileView {
            maybe_ttp_type: self.maybe_ttp_type,
            frame_count: self.frame_count,
            window_width: self.window_width,
            window_height: self.window_height,
            frames: self.frames@.map_values(|f: TtpFrame| f@),
            unk_bool: self.unk_bool,
        }
    }
}

/// A representable file: the stored count matches the frames, the trailing
/// flag stands exactly for kind 3, and every name fits its 32-bit prefix.
pub open spec fn spec_ttp_wf(f: TtpFileView) -> bool {
    &&& f.frame_count as int == f.frames.len()
    &&& (f.unk_bool is Some <==> f.maybe_ttp_type == 3)
    &&& forall|i: int|
        0 <= i < f.frames.len() ==> {
            &&& (#[trigger] f.frames[i]).sprite_name.len() <= u32::MAX
            &&& f.frames[i].se_name.len() <= u32::MAX
            &&& f.frames[i].textbox_name.len() <= u32::MAX
        }
}

/// Serialized bytes of a resource name: the byte count, then the bytes.
pub open spec fn spec_resname_bytes(name: Seq<u8>) -> Seq<u8> {
    spec_u32_to_le_bytes(name.len() as u32) + name
}

/// Serialized size of a frame.
pub open spec fn spec_frame_size(f: TtpFrameView) -> int {
    4 + f.sprite_name.len() + 4 + f.se_name.len() + 4 + f.textbox_name.len() + 20 as int
}

/// Serialized bytes of a frame.
pub open spec fn spec_frame_bytes(f: TtpFrameView) -> Seq<u8> {
    spec_resname_bytes(f.sprite_name) + spec_resname_bytes(f.se_name) + spec_resname_bytes(
        f.textbox_name,
    ) + spec_u32_to_le_bytes(f.delay_ms) + spec_u32_to_le_bytes(f.x_offset_textbox)
        + spec_u32_to_le_bytes(f.y_offset_textbox) + spec_u32_to_le_bytes(f.x_offset)
        + spec_u32_to_le_bytes(f.y_offset)
}

/// Serialized size of the first `n` frames.
pub open spec fn spec_frames_size(fs: Seq<TtpFrameView>, n: int) -> int
    decreases n,
{
    if n <= 0 {
        0
    } else {
        spec_frames_size(fs, n - 1) + spec_frame_size(fs[n - 1])
    }
}

/// Serialized bytes of the first `n` frames.
pub open spec fn spec_frames_bytes(fs: Seq<TtpFrameView>, n: int) -> Seq<u8>
    decreases n,
{
    if n <= 0 {
        Seq::empty()
    } else {
        spec_frames_bytes(fs, n - 1) + spec_frame_bytes(fs[n - 1])
    }
}

/// The whole serialized file: four header fields, the frames, and the
/// trailing flag byte when present.
pub open spec fn spec_ttp_bytes(f: TtpFileView) -> Seq<u8> {
    spec_u32_to_le_bytes(f.maybe_ttp_type) + spec_u32_to_le_bytes(f.frame_count)
        + spec_u32_to_le_bytes(f.window_width) + spec_u32_to_le_bytes(f.window_height)
        + spec_frames_bytes(f.frames, f.frames.len() as int) + (match f.unk_bool {
        Some(v) => seq![v],
        None => Seq::<u8>::empty(),
    })
}

/// What parsing a resource name at `pos` yields: its bytes and the
/// position after them.
pub open spec fn spec_parse_resname(b: Seq<u8>, pos: int) -> Result<(Seq<u8>, int), FormatError> {
    if pos + 4 > b.len() {
        Err(FormatError::Truncated)
    } else {
        let l = spec_u32_from_le_bytes(b.subrange(pos, pos + 4)) as int;
        if pos + 4 + l > b.len() {
            Err(FormatError::Truncated)
        } else {
            Ok((b.subrange(pos + 4, pos + 4 + l), pos + 4 + l))
        }
    }
}

/// What parsing a frame at `pos` yields: the frame and the position after.
pub open spec fn spec_parse_frame(b: Seq<u8>, pos: int) -> Result<(TtpFrameView, int), FormatError> {
    match spec_parse_resname(b, pos) {
        Err(e) => Err(e),
        Ok((sprite_name, p1)) => match spec_parse_resname(b, p1) {
            Err(e) => Err(e),
            Ok((se_name, p2)) => match spec_parse_resname(b, p2) {
                Err(e) => Err(e),
                Ok((textbox_name, p3)) => if p3 + 20 > b.len() {
                    Err(FormatError::Truncated)
                } else {
                    Ok(
                        (
                            TtpFrameView {
                                sprite_name,
                                se_name,
                                textbox_name,
                                delay_ms: spec_u32_from_le_bytes(b.subrange(p3, p3 + 4)),
                                x_offset_textbox: spec_u32_from_le_bytes(
                                    b.subrange(p3 + 4, p3 + 8),
                                ),
                                y_offset_textbox: spec_u32_from_le_bytes(
                                    b.subrange(p3 + 8, p3 + 12),
                                ),
                                x_offset: spec_u32_from_le_bytes(b.subrange(p3 + 12, p3 + 16)),
                                y_offset: spec_u32_from_le_bytes(b.subrange(p3 + 16, p3 + 20)),
                            },
                            p3 + 20,
                        ),
                    )
                },
            },
        },
    }
}

/// What parsing `n` frames from `pos` yields: the frames in order and the
/// position after the last, or the error of the first frame that fails.
pub open spec fn spec_parse_frames(b: Seq<u8>, pos: int, n: int) -> Result<
    (Seq<TtpFrameView>, int),
    FormatError,
>
    decreases n,
{
    if n <= 0 {
        Ok((Seq::empty(), pos))
    } else {
        match spec_parse_frames(b, pos, n - 1) {
            Err(e) => Err(e),
            Ok((fs, p)) => match spec_parse_frame(b, p) {
                Err(e) => Err(e),
                Ok((f, p2)) => Ok((fs.push(f), p2)),
            },
        }
    }
}

/// What parsing a whole file yields. Bytes after the structure are
/// ignored.
pub open spec fn spec_parse_ttp(b: Seq<u8>) -> Result<TtpFileView, FormatError> {
    if b.len() < 16 {
        Err(FormatError::Truncated)
    } else {
        let maybe_ttp_type = spec_u32_from_le_bytes(b.subrange(0, 4));
        let frame_count = spec_u32_from_le_bytes(b.subrange(4, 8));
        let window_width = spec_u32_from_le_bytes(b.subrange(8, 12));
        let window_height = spec_u32_from_le_bytes(b.subrange(12, 16));
        match spec_parse_frames(b, 16, frame_count as int) {
            Err(e) => Err(e),
            Ok((frames, p)) => if maybe_ttp_type == 3 {
                if p + 1 > b.len() {
                    Err(FormatError::Truncated)
                } else {
                    Ok(
                        TtpFileView {
                            maybe_ttp_type,
                            frame_count,
                            window_width,
                            window_height,
                            frames,
                            unk_bool: Some(b[p]),
                        },
                    )
                }
            } else {
                Ok(
                    TtpFileView {
                        maybe_ttp_type,
                        frame_count,
                        window_width,
                        window_height,
                        frames,
                        unk_bool: None,
                    },
                )
            },
        }
    }
}

/// Serialized bytes of a frame are exactly its serialized size.
proof fn lemma_frame_bytes_len(f: TtpFrameView)
    ensures
        spec_frame_bytes(f).len() == spec_frame_size(f),
{
    lemma_auto_spec_u32_to_from_le_bytes();
}

/// The serialized frames of a file are as long as their sizes' sum.
proof fn lemma_frames_bytes_len(fs: Seq<TtpFrameView>, n: int)
    requires
        0 <= n <= fs.len(),
    ensures
        spec_frames_bytes(fs, n).len() == spec_frames_size(fs, n),
    decreases n,
{
    if n > 0 {
        lemma_frames_bytes_len(fs, n - 1);
        lemma_frame_bytes_len(fs[n - 1]);
    }
}

/// Frame sizes are never negative.
proof fn lemma_frames_size_nonneg(fs: Seq<TtpFrameView>, n: int)
    ensures
        spec_frames_size(fs, n) >= 0,
    decreases n,
{
    if n > 0 {
        lemma_frames_size_nonneg(fs, n - 1);
    }
}

/// Partial frame-size sums grow with the index.
proof fn lemma_frames_size_mono(fs: Seq<TtpFrameView>, i: int, n: int)
    requires
        0 <= i <= n,
    ensures
        spec_frames_size(fs, i) <= spec_frames_size(fs, n),
    decreases n - i,
{
    if n > i {
        lemma_frames_size_mono(fs, i, n - 1);
    }
}

/// Byte `j` of frame `i` inside the serialized frames.
proof fn lemma_frames_bytes_index(fs: Seq<TtpFrameView>, n: int, i: int, j: int)
    requires
        0 <= i < n <= fs.len(),
        0 <= j < spec_frame_size(fs[i]),
    ensures
        spec_frames_bytes(fs, n)[spec_frames_size(fs, i) + j] == spec_frame_bytes(fs[i])[j],
    decreases n,
{
    lemma_frames_bytes_len(fs, n - 1);
    lemma_frame_bytes_len(fs[n - 1]);
    if i < n - 1 {
        lemma_frames_bytes_index(fs, n - 1, i, j);
        lemma_frames_size_mono(fs, i + 1, n - 1);
        lemma_frames_size_nonneg(fs, i);
    }
}

/// Parsing a serialized resource name recovers its bytes.
proof fn lemma_parse_resname_built(b: Seq<u8>, pos: int, name: Seq<u8>)
    requires
        0 <= pos,
        name.len() <= u32::MAX,
        pos + 4 + name.len() <= b.len(),
        b.subrange(pos, pos + 4 + name.len()) == spec_resname_bytes(name),
    ensures
        spec_parse_resname(b, pos) == Ok::<(Seq<u8>, int), FormatError>(
            (name, pos + 4 + name.len()),
        ),
{
    lemma_auto_spec_u32_to_from_le_bytes();
    let l = name.len() as int;
    let rb = spec_resname_bytes(name);
    assert forall|k: int| 0 <= k < 4 implies #[trigger] b.subrange(pos, pos + 4)[k]
        == spec_u32_to_le_bytes(name.len() as u32)[k] by {
        assert(b.subrange(pos, pos + 4 + l)[k] == rb[k]);
        assert(b[pos + k] == rb[k]);
        assert(rb[k] == spec_u32_to_le_bytes(name.len() as u32)[k]);
    }
    assert(b.subrange(pos, pos + 4) =~= spec_u32_to_le_bytes(name.len() as u32));
    assert forall|k: int| 0 <= k < l implies #[trigger] b.subrange(pos + 4, pos + 4 + l)[k]
        == name[k] by {
        assert(b.subrange(pos, pos + 4 + l)[4 + k] == rb[4 + k]);
        assert(b[pos + (4 + k)] == rb[4 + k]);
        assert(rb[4 + k] == name[k]);
    }
    assert(b.subrange(pos + 4, pos + 4 + l) =~= name);
}

/// Parsing a serialized frame recovers it.
proof fn lemma_parse_frame_built(b: Seq<u8>, pos: int, fr: TtpFrameView)
    requires
        0 <= pos,
        fr.sprite_name.len() <= u32::MAX,
        fr.se_name.len() <= u32::MAX,
        fr.textbox_name.len() <= u32::MAX,
        pos + spec_frame_size(fr) <= b.len(),
        b.subrange(pos, pos + spec_frame_size(fr)) == spec_frame_bytes(fr),
    ensures
        spec_parse_frame(b, pos) == Ok::<(TtpFrameView, int), FormatError>(
            (fr, pos + spec_frame_size(fr)),
        ),
{
    lemma_auto_spec_u32_to_from_le_bytes();
    let fb = spec_frame_bytes(fr);
    let fsize = spec_frame_size(fr);
    let l1 = fr.sprite_name.len() as int;
    let l2 = fr.se_name.len() as int;
    let l3 = fr.textbox_name.len() as int;
    let q1 = 4 + l1;
    let q2 = q1 + 4 + l2;
    let q3 = q2 + 4 + l3;
    assert forall|t: int| 0 <= t < fsize implies #[trigger] b[pos + t] == fb[t] by {
        assert(b.subrange(pos, pos + fsize)[t] == fb[t]);
    }
    // First name.
    assert forall|t: int| 0 <= t < q1 implies #[trigger] b.subrange(pos, pos + q1)[t]
        == spec_resname_bytes(fr.sprite_name)[t] by {
        assert(b[pos + t] == fb[t]);
        assert(fb[t] == spec_resname_bytes(fr.sprite_name)[t]);
    }
    assert(b.subrange(pos, pos + q1) =~= spec_resname_bytes(fr.sprite_name));
    lemma_parse_resname_built(b, pos, fr.sprite_name);
    // Second name.
    let p1 = pos + q1;
    assert forall|t: int| 0 <= t < 4 + l2 implies #[trigger] b.subrange(p1, p1 + 4 + l2)[t]
        == spec_resname_bytes(fr.se_name)[t] by {
        assert(b[pos + (q1 + t)] == fb[q1 + t]);
        assert(fb[q1 + t] == spec_resname_bytes(fr.se_name)[t]);
    }
    assert(b.subrange(p1, p1 + 4 + l2) =~= spec_resname_bytes(fr.se_name));
    lemma_parse_resname_built(b, p1, fr.se_name);
    // Third name.
    let p2 = pos + q2;
    assert forall|t: int| 0 <= t < 4 + l3 implies #[trigger] b.subrange(p2, p2 + 4 + l3)[t]
        == spec_resname_bytes(fr.textbox_name)[t] by {
        assert(b[pos + (q2 + t)] == fb[q2 + t]);
        assert(fb[q2 + t] == spec_resname_bytes(fr.textbox_name)[t]);
    }
    assert(b.subrange(p2, p2 + 4 + l3) =~= spec_resname_bytes(fr.textbox_name));
    lemma_parse_resname_built(b, p2, fr.textbox_name);
    // The five numeric fields.
    let p3 = pos + q3;
    assert forall|t: int| 0 <= t < 4 implies #[trigger] b.subrange(p3, p3 + 4)[t]
        == spec_u32_to_le_bytes(fr.delay_ms)[t] by {
        assert(b[pos + (q3 + t)] == fb[q3 + t]);
        assert(fb[q3 + t] == spec_u32_to_le_bytes(fr.delay_ms)[t]);
    }
    assert(b.subrange(p3, p3 + 4) =~= spec_u32_to_le_bytes(fr.delay_ms));
    assert forall|t: int| 0 <= t < 4 implies #[trigger] b.subrange(p3 + 4, p3 + 8)[t]
        == spec_u32_to_le_bytes(fr.x_offset_textbox)[t] by {
        assert(b[pos + (q3 + 4 + t)] == fb[q3 + 4 + t]);
        assert(fb[q3 + 4 + t] == spec_u32_to_le_bytes(fr.x_offset_textbox)[t]);
    }
    assert(b.subrange(p3 + 4, p3 + 8) =~= spec_u32_to_le_bytes(fr.x_offset_textbox));
    assert forall|t: int| 0 <= t < 4 implies #[trigger] b.subrange(p3 + 8, p3 + 12)[t]
        == spec_u32_to_le_bytes(fr.y_offset_textbox)[t] by {
        assert(b[pos + (q3 + 8 + t)] == fb[q3 + 8 + t]);
        assert(fb[q3 + 8 + t] == spec_u32_to_le_bytes(fr.y_offset_textbox)[t]);
    }
    assert(b.subrange(p3 + 8, p3 + 12) =~= spec_u32_to_le_bytes(fr.y_offset_textbox));
    assert forall|t: int| 0 <= t < 4 implies #[trigger] b.subrange(p3 + 12, p3 + 16)[t]
        == spec_u32_to_le_bytes(fr.x_offset)[t] by {
        assert(b[pos + (q3 + 12 + t)] == fb[q3 + 12 + t]);
        assert(fb[q3 + 12 + t] == spec_u32_to_le_bytes(fr.x_offset)[t]);
    }
    assert(b.subrange(p3 + 12, p3 + 16) =~= spec_u32_to_le_bytes(fr.x_offset));
    assert forall|t: int| 0 <= t < 4 implies #[trigger] b.subrange(p3 + 16, p3 + 20)[t]
        == spec_u32_to_le_bytes(fr.y_offset)[t] by {
        assert(b[pos + (q3 + 16 + t)] == fb[q3 + 16 + t]);
        assert(fb[q3 + 16 + t] == spec_u32_to_le_bytes(fr.y_offset)[t]);
    }
    assert(b.subrange(p3 + 16, p3 + 20) =~= spec_u32_to_le_bytes(fr.y_offset));
}

/// Every name of every frame fits its 32-bit length prefix.
pub open spec fn spec_frames_wf(fs: Seq<TtpFrameView>) -> bool {
    forall|i: int|
        0 <= i < fs.len() ==> {
            &&& (#[trigger] fs[i]).sprite_name.len() <= u32::MAX
            &&& fs[i].se_name.len() <= u32::MAX
            &&& fs[i].textbox_name.len() <= u32::MAX
        }
}

/// Parsing the first `m` serialized frames recovers them.
proof fn lemma_parse_frames_built(b: Seq<u8>, pos: int, fs: Seq<TtpFrameView>, m: int)
    requires
        0 <= pos,
        0 <= m <= fs.len(),
        spec_frames_wf(fs),
        pos + spec_frames_size(fs, fs.len() as int) <= b.len(),
        b.subrange(pos, pos + spec_frames_size(fs, fs.len() as int)) == spec_frames_bytes(
            fs,
            fs.len() as int,
        ),
    ensures
        spec_parse_frames(b, pos, m) == Ok::<(Seq<TtpFrameView>, int), FormatError>(
            (fs.subrange(0, m), pos + spec_frames_size(fs, m)),
        ),
    decreases m,
{
    let n = fs.len() as int;
    lemma_frames_bytes_len(fs, n);
    lemma_frames_size_nonneg(fs, m);
    if m > 0 {
        lemma_parse_frames_built(b, pos, fs, m - 1);
        let prev = spec_frames_size(fs, m - 1);
        let p = pos + prev;
        let fr = fs[m - 1];
        let fsize = spec_frame_size(fr);
        lemma_frames_size_nonneg(fs, m - 1);
        lemma_frames_size_mono(fs, m, n);
        lemma_frame_bytes_len(fr);
        assert forall|j: int| 0 <= j < fsize implies #[trigger] b.subrange(p, p + fsize)[j]
            == spec_frame_bytes(fr)[j] by {
            lemma_frames_bytes_index(fs, n, m - 1, j);
            assert(b.subrange(pos, pos + spec_frames_size(fs, n))[prev + j] == spec_frames_bytes(
                fs,
                n,
            )[prev + j]);
            assert(b[pos + (prev + j)] == spec_frames_bytes(fs, n)[prev + j]);
        }
        assert(b.subrange(p, p + fsize) =~= spec_frame_bytes(fr));
        lemma_parse_frame_built(b, p, fr);
        assert(fs.subrange(0, m - 1).push(fr) =~= fs.subrange(0, m));
    } else {
        assert(fs.subrange(0, 0) =~= Seq::<TtpFrameView>::empty());
    }
}

/// Round trip: a representable file, serialized and parsed back, is
/// recovered exactly — header fields, every frame, and the trailing flag.
pub proof fn lemma_serialize_parse_round_trip(f: TtpFileView)
    requires
        spec_ttp_wf(f),
    ensures
        spec_parse_ttp(spec_ttp_bytes(f)) == Ok::<TtpFileView, FormatError>(f),
{
    lemma_auto_spec_u32_to_from_le_bytes();
    let b = spec_ttp_bytes(f);
    let fs = f.frames;
    let n = fs.len() as int;
    let fsz = spec_frames_size(fs, n);
    lemma_frames_bytes_len(fs, n);
    lemma_frames_size_nonneg(fs, n);
    let tail: Seq<u8> = match f.unk_bool {
        Some(v) => seq![v],
        None => Seq::<u8>::empty(),
    };
    assert(b.len() == 16 + fsz + tail.len());
    assert forall|k: int| 0 <= k < 4 implies #[trigger] b.subrange(0, 4)[k] == spec_u32_to_le_bytes(
        f.maybe_ttp_type,
    )[k] by {
        assert(b[k] == spec_u32_to_le_bytes(f.maybe_ttp_type)[k]);
    }
    assert(b.subrange(0, 4) =~= spec_u32_to_le_bytes(f.maybe_ttp_type));
    assert forall|k: int| 0 <= k < 4 implies #[trigger] b.subrange(4, 8)[k] == spec_u32_to_le_bytes(
        f.frame_count,
    )[k] by {
        assert(b[4 + k] == spec_u32_to_le_bytes(f.frame_count)[k]);
    }
    assert(b.subrange(4, 8) =~= spec_u32_to_le_bytes(f.frame_count));
    assert forall|k: int| 0 <= k < 4 implies #[trigger] b.subrange(8, 12)[k]
        == spec_u32_to_le_bytes(f.window_width)[k] by {
        assert(b[8 + k] == spec_u32_to_le_bytes(f.window_width)[k]);
    }
    assert(b.subrange(8, 12) =~= spec_u32_to_le_bytes(f.window_width));
    assert forall|k: int| 0 <= k < 4 implies #[trigger] b.subrange(12, 16)[k]
        == spec_u32_to_le_bytes(f.window_height)[k] by {
        assert(b[12 + k] == spec_u32_to_le_bytes(f.window_height)[k]);
    }
    assert(b.subrange(12, 16) =~= spec_u32_to_le_bytes(f.window_height));
    assert forall|t: int| 0 <= t < fsz implies #[trigger] b.subrange(16, 16 + fsz)[t]
        == spec_frames_bytes(fs, n)[t] by {
        assert(b[16 + t] == spec_frames_bytes(fs, n)[t]);
    }
    assert(b.subrange(16, 16 + fsz) =~= spec_frames_bytes(fs, n));
    lemma_parse_frames_built(b, 16, fs, n);
    assert(fs.subrange(0, n) =~= fs);
    match f.unk_bool {
        Some(v) => {
            assert(b[16 + fsz] == v);
        },
        None => {},
    }
}

/// Parses one resource name at `pos`.
fn parse_resname(b: &[u8], pos: usize) -> (r: Result<(ResName, usize), FormatError>)
    ensures
        match r {
            Ok((name, p)) => {
                &&& spec_parse_resname(b@, pos as int) == Ok::<(Seq<u8>, int), FormatError>(
                    (name@, p as int),
                )
                &&& name.wf()
                &&& p as int <= b@.len()
            },
            Err(e) => spec_parse_resname(b@, pos as int) == Err::<(Seq<u8>, int), FormatError>(e),
        },
{
    let blen: usize = b.len();
    if blen < 4 || pos > blen - 4 {
        return Err(FormatError::Truncated);
    }
    let l = read_u32_at(b, pos);
    let start: usize = pos + 4;
    if (l as u64) > (blen - start) as u64 {
        return Err(FormatError::Truncated);
    }
    let end: usize = start + l as usize;
    let sj_bytes = slice_to_vec(slice_subrange(b, start, end));
    Ok((ResName { len: l, sj_bytes }, end))
}

/// Parses one frame at `pos`.
fn parse_frame(b: &[u8], pos: usize) -> (r: Result<(TtpFrame, usize), FormatError>)
    ensures
        match r {
            Ok((f, p)) => {
                &&& spec_parse_frame(b@, pos as int) == Ok::<(TtpFrameView, int), FormatError>(
                    (f@, p as int),
                )
                &&& f.wf()
                &&& p as int <= b@.len()
            },
            Err(e) => spec_parse_frame(b@, pos as int) == Err::<(TtpFrameView, int), FormatError>(
                e,
            ),
        },
{
    let blen: usize = b.len();
    let (sprite_name, p1) = parse_resname(b, pos)?;
    let (se_name, p2) = parse_resname(b, p1)?;
    let (textbox_name, p3) = parse_resname(b, p2)?;
    if blen < 20 || p3 > blen - 20 {
        return Err(FormatError::Truncated);
    }
    let delay_ms = read_u32_at(b, p3);
    let x_offset_textbox = read_u32_at(b, p3 + 4);
    let y_offset_textbox = read_u32_at(b, p3 + 8);
    let x_offset = read_u32_at(b, p3 + 12);
    let y_offset = read_u32_at(b, p3 + 16);
    Ok(
        (
            TtpFrame {
                sprite_name,
                se_name,
                textbox_name,
                delay_ms,
                x_offset_textbox,
                y_offset_textbox,
                x_offset,
                y_offset,
            },
            p3 + 20,
        ),
    )
}

/// A frame that fails to parse makes the whole sequence fail with its
/// error, whatever stands after it.
proof fn lemma_parse_frames_err(b: Seq<u8>, pos: int, i: int, n: int, e: FormatError)
    requires
        0 <= i < n,
        spec_parse_frames(b, pos, i) matches Ok((fs, p)) && spec_parse_frame(b, p) == Err::<
            (TtpFrameView, int),
            FormatError,
        >(e),
    ensures
        spec_parse_frames(b, pos, n) == Err::<(Seq<TtpFrameView>, int), FormatError>(e),
    decreases n,
{
    if n > i + 1 {
        lemma_parse_frames_err(b, pos, i, n - 1, e);
    }
}

impl TtpFile {
    /// Parses a file: the four header fields, `frame_count` frames, and
    /// the trailing flag byte exactly when the kind field is 3. On success
    /// the file holds exactly the announced number of frames.
    pub fn parse(bytes: &[u8]) -> (r: Result<TtpFile, FormatError>)
        ensures
            match r {
                Ok(f) => {
                    &&& spec_parse_ttp(bytes@) == Ok::<TtpFileView, FormatError>(f@)
                    &&& f.wf()
                    &&& f.frame_count as int == f.frames@.len()
                },
                Err(e) => spec_parse_ttp(bytes@) == Err::<TtpFileView, FormatError>(e),
            },
    {
        let blen: usize = bytes.len();
        if blen < 16 {
            return Err(FormatError::Truncated);
        }
        let maybe_ttp_type = read_u32_at(bytes, 0);
        let frame_count = read_u32_at(bytes, 4);
        let window_width = read_u32_at(bytes, 8);
        let window_height = read_u32_at(bytes, 12);
        let mut frames: Vec<TtpFrame> = Vec::new();
        let mut pos: usize = 16;
        let mut i: u32 = 0;
        assert(frames@.map_values(|f: TtpFrame| f@) =~= Seq::<TtpFrameView>::empty());
        while i < frame_count
            invariant
                bytes@.len() >= 16,
                bytes@.len() <= usize::MAX,
                maybe_ttp_type == spec_u32_from_le_bytes(bytes@.subrange(0, 4)),
                frame_count == spec_u32_from_le_bytes(bytes@.subrange(4, 8)),
                window_width == spec_u32_from_le_bytes(bytes@.subrange(8, 12)),
                window_height == spec_u32_from_le_bytes(bytes@.subrange(12, 16)),
                0 <= i <= frame_count,
                frames@.len() == i,
                pos as int <= bytes@.len(),
                spec_parse_frames(bytes@, 16, i as int) == Ok::<
                    (Seq<TtpFrameView>, int),
                    FormatError,
                >((frames@.map_values(|f: TtpFrame| f@), pos as int)),
                forall|k: int| 0 <= k < frames@.len() ==> (#[trigger] frames@[k]).wf(),
            decreases frame_count - i,
        {
            let (frame, p2) = match parse_frame(bytes, pos) {
                Ok(fp) => fp,
                Err(e) => {
                    proof {
                        lemma_parse_frames_err(bytes@, 16, i as int, frame_count as int, e);
                    }
                    return Err(e);
                },
            };
            let ghost old_views = frames@.map_values(|f: TtpFrame| f@);
            frames.push(frame);
            proof {
                assert(frames@.map_values(|f: TtpFrame| f@) =~= old_views.push(frame@));
            }
            pos = p2;
            i = i + 1;
        }
        let unk_bool: Option<u8> = if maybe_ttp_type == 3 {
            if pos >= blen {
                return Err(FormatError::Truncated);
            }
            Some(*slice_index_get(bytes, pos))
        } else {
            None
        };
        let f = TtpFile {
            maybe_ttp_type,
            frame_count,
            window_width,
            window_height,
            frames,
            unk_bool,
        };
        Ok(f)
    }

    /// The stored count matches the frames, the trailing flag stands
    /// exactly for kind 3, and every name's prefix matches its bytes.
    pub open spec fn wf(self) -> bool {
        &&& self.frame_count as int == self.frames@.len()
        &&& (self.unk_bool is Some <==> self.maybe_ttp_type == 3)
        &&& forall|i: int| 0 <= i < self.frames@.len() ==> (#[trigger] self.frames@[i]).wf()
    }

    /// A well-formed file's view is representable: what the round-trip
    /// lemma asks of it.
    pub proof fn lemma_wf_view(self)
        requires
            self.wf(),
        ensures
            spec_ttp_wf(self@),
    {
        assert forall|i: int| 0 <= i < self@.frames.len() implies {
            &&& (#[trigger] self@.frames[i]).sprite_name.len() <= u32::MAX
            &&& self@.frames[i].se_name.len() <= u32::MAX
            &&& self@.frames[i].textbox_name.len() <= u32::MAX
        } by {
            assert(self@.frames[i] == self.frames@[i]@);
            self.frames@[i].sprite_name.lemma_wf_len_bound();
            self.frames@[i].se_name.lemma_wf_len_bound();
            self.frames@[i].textbox_name.lemma_wf_len_bound();
        }
    }

    /// Serializes the file, recomputing each name's length prefix from its
    /// bytes.
    pub fn serialize(&self) -> (r: Vec<u8>)
        requires
            self.wf(),
        ensures
            r@ == spec_ttp_bytes(self@),
    {
        let mut out: Vec<u8> = Vec::new();
        push_u32_le(&mut out, self.maybe_ttp_type);
        push_u32_le(&mut out, self.frame_count);
        push_u32_le(&mut out, self.window_width);
        push_u32_le(&mut out, self.window_height);
        let ghost header = out@;
        assert(out@ =~= header + spec_frames_bytes(self@.frames, 0));
        let n: usize = self.frames.len();
        let mut i: usize = 0;
        while i < n
            invariant
                self.wf(),
                n == self.frames@.len(),
                0 <= i <= n,
                out@ == header + spec_frames_bytes(self@.frames, i as int),
            decreases n - i,
        {
            let frame = &self.frames[i];
            push_resname(&mut out, &frame.sprite_name);
            push_resname(&mut out, &frame.se_name);
            push_resname(&mut out, &frame.textbox_name);
            push_u32_le(&mut out, frame.delay_ms);
            push_u32_le(&mut out, frame.x_offset_textbox);
            push_u32_le(&mut out, frame.y_offset_textbox);
            push_u32_le(&mut out, frame.x_offset);
            push_u32_le(&mut out, frame.y_offset);
            proof {
                assert(self@.frames[i as int] == self.frames@[i as int]@);
                assert(out@ =~= header + spec_frames_bytes(self@.frames, i as int + 1));
            }
            i = i + 1;
        }
        match &self.unk_bool {
            Some(v) => {
                out.push(*v);
            },
            None => {},
        }
        proof {
            assert(out@ =~= spec_ttp_bytes(self@));
        }
        out
    }
}

/// Appends a serialized resource name.
fn push_resname(out: &mut Vec<u8>, name: &ResName)
    requires
        name.wf(),
    ensures
        final(out)@ == old(out)@ + spec_resname_bytes(name@),
{
    let ghost orig = out@;
    let l: u32 = name.len_prefix();
    push_u32_le(out, l);
    let mut payload = slice_to_vec(name.raw_bytes());
    out.append(&mut payload);
    assert(out@ =~= orig + spec_resname_bytes(name@));
}

impl ResName {
    /// The stored length prefix.
    pub fn len_prefix(&self) -> (r: u32)
        requires
            self.wf(),
        ensures
            r as int == self@.len(),
    {
        self.len
    }
}

} // verus!
