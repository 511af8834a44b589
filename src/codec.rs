//! The container: header, eight track records, the shared value block and the footer.
use crate::error::CodecError;
use crate::pool::{lemma_register, register_spec, FramePool};
use crate::track::{
    decode_track_spec, flat_values, record_bytes, record_size, value_width, Track, TrackView,
    MAX_POOL_VALUES,
};
use crate::wire::{be_at, be_bytes, i32_of, le_at, le_bytes, push_be, push_le, read_be, read_le};
use vstd::prelude::*;

verus! {

/// The sub-format tag of baked (full-frame) files.
pub const BAKED_TAG: u32 = 0x4D4E_4143;

/// The sub-format tag of keyed (spline) files.
pub const KEYED_TAG: u32 = 0x4E41_4B43;

/// The size of the header in bytes.
pub const HEADER_SIZE: usize = 0x20;

/// The sub-format of a file: baked per-frame values, or keyed spline points.
#[derive(Clone, Copy, Debug, PartialEq, Eq, Structural)]
pub enum FrameType {
    /// Baked: one value per frame, the frame id implied by its index.
    CANM,
    /// Keyed: id, value and tangents per control point.
    CKAN,
}

impl FrameType {
    pub open spec fn spec_tag(self) -> u32 {
        match self {
            FrameType::CANM => BAKED_TAG,
            FrameType::CKAN => KEYED_TAG,
        }
    }

    /// The word that stands for this sub-format in a file.
    pub fn tag(self) -> (r: u32)
        ensures
            r == self.spec_tag(),
    {
        match self {
            FrameType::CANM => BAKED_TAG,
            FrameType::CKAN => KEYED_TAG,
        }
    }

    pub open spec fn spec_from_tag(t: u32) -> Option<FrameType> {
        if t == BAKED_TAG {
            Some(FrameType::CANM)
        } else if t == KEYED_TAG {
            Some(FrameType::CKAN)
        } else {
            None
        }
    }

    /// The sub-format that the word `t` stands for; `None` for any other word.
    pub fn from_tag(t: u32) -> (r: Option<FrameType>)
        ensures
            r == Self::spec_from_tag(t),
    {
        if t == BAKED_TAG {
            Some(FrameType::CANM)
        } else if t == KEYED_TAG {
            Some(FrameType::CKAN)
        } else {
            None
        }
    }

    pub open spec fn spec_for_mode(baked: bool) -> FrameType {
        if baked {
            FrameType::CANM
        } else {
            FrameType::CKAN
        }
    }

    /// The sub-format of a container whose `isfullframes` flag is `baked`.
    pub fn for_mode(baked: bool) -> (r: FrameType)
        ensures
            r == Self::spec_for_mode(baked),
    {
        if baked {
            FrameType::CANM
        } else {
            FrameType::CKAN
        }
    }
}

/// The eight channels of a camera rig, in the order in which files store them.
#[derive(Clone, Copy, Debug, PartialEq, Eq, Structural)]
pub enum TrackSelection {
    PositionX,
    PositionY,
    PositionZ,
    TargetX,
    TargetY,
    TargetZ,
    Roll,
    FieldOfView,
}

impl TrackSelection {
    pub open spec fn spec_index(self) -> int {
        match self {
            TrackSelection::PositionX => 0,
            TrackSelection::PositionY => 1,
            TrackSelection::PositionZ => 2,
            TrackSelection::TargetX => 3,
            TrackSelection::TargetY => 4,
            TrackSelection::TargetZ => 5,
            TrackSelection::Roll => 6,
            TrackSelection::FieldOfView => 7,
        }
    }

    /// The position of this channel in a file, from 0 to 7.
    pub fn index(self) -> (r: usize)
        ensures
            r == self.spec_index(),
    {
        match self {
            TrackSelection::PositionX => 0,
            TrackSelection::PositionY => 1,
            TrackSelection::PositionZ => 2,
            TrackSelection::TargetX => 3,
            TrackSelection::TargetY => 4,
            TrackSelection::TargetZ => 5,
            TrackSelection::Roll => 6,
            TrackSelection::FieldOfView => 7,
        }
    }

    /// All eight channels in file order.
    pub open spec fn all() -> Seq<TrackSelection> {
        seq![
            TrackSelection::PositionX,
            TrackSelection::PositionY,
            TrackSelection::PositionZ,
            TrackSelection::TargetX,
            TrackSelection::TargetY,
            TrackSelection::TargetZ,
            TrackSelection::Roll,
            TrackSelection::FieldOfView,
        ]
    }

    /// The channel at position `i` of a file; `None` from 8 on.
    pub fn from_index(i: usize) -> (r: Option<TrackSelection>)
        ensures
            i < 8 ==> r == Some(Self::all()[i as int]),
            i >= 8 ==> r is None,
    {
        match i {
            0 => Some(TrackSelection::PositionX),
            1 => Some(TrackSelection::PositionY),
            2 => Some(TrackSelection::PositionZ),
            3 => Some(TrackSelection::TargetX),
            4 => Some(TrackSelection::TargetY),
            5 => Some(TrackSelection::TargetZ),
            6 => Some(TrackSelection::Roll),
            7 => Some(TrackSelection::FieldOfView),
            _ => None,
        }
    }

    /// All eight channels in file order.
    pub fn new() -> (r: [TrackSelection; 8])
        ensures
            r@ == Self::all(),
    {
        let r = [
            TrackSelection::PositionX,
            TrackSelection::PositionY,
            TrackSelection::PositionZ,
            TrackSelection::TargetX,
            TrackSelection::TargetY,
            TrackSelection::TargetZ,
            TrackSelection::Roll,
            TrackSelection::FieldOfView,
        ];
        assert(r@ =~= Self::all());
        r
    }
}

/// The header fields that both container families share; the magic word,
/// which tells the families apart, is checked and written by the codec.
#[derive(Clone, Copy, Debug, PartialEq, Eq, Structural)]
pub struct HeaderFields {
    pub frame_type: FrameType,
    pub unk1: i32,
    pub unk2: i32,
    pub unk3: i32,
    pub unk4: i32,
    pub frame_count: i32,
    pub offset: u32,
}

/// The data-offset word written for a mode: the size of the eight track records.
pub open spec fn data_offset(baked: bool) -> u32 {
    if baked {
        0x40
    } else {
        0x60
    }
}

/// The bytes that close every file.
pub open spec fn footer() -> Seq<u8> {
    seq![0x3Du8, 0xCCu8, 0xCCu8, 0xCDu8, 0x4Eu8, 0x6Eu8, 0x6Bu8, 0x28u8, 0xFFu8, 0xFFu8, 0xFFu8, 0xFFu8]
}

/// The mathematical value of a vector of tracks.
pub open spec fn views(ts: Seq<Track>) -> Seq<TrackView> {
    ts.map_values(|t: Track| t@)
}

/// The header read from `b`, which is at least 32 bytes long and carries a valid tag.
pub open spec fn header_spec(b: Seq<u8>) -> HeaderFields {
    HeaderFields {
        frame_type: FrameType::spec_from_tag(le_at(b, 4))->0,
        unk1: i32_of(be_at(b, 8)),
        unk2: i32_of(be_at(b, 12)),
        unk3: i32_of(be_at(b, 16)),
        unk4: i32_of(be_at(b, 20)),
        frame_count: i32_of(be_at(b, 24)),
        offset: be_at(b, 28),
    }
}

/// The tracks read from `b` under header `h`, in file order, each `None`
/// where it runs past the end.
pub open spec fn decoded_tracks(b: Seq<u8>, h: HeaderFields) -> Seq<Option<TrackView>> {
    let baked = h.frame_type == FrameType::CANM;
    Seq::new(
        8,
        |k: int| decode_track_spec(b, 32 + k * record_size(baked), 32 + h.offset, baked),
    )
}

/// Decoding `b` as a file of the family whose magic word is `magic`: the
/// header fields and the eight tracks in file order, or the first error.
pub open spec fn decode_spec(b: Seq<u8>, magic: u32) -> Result<(HeaderFields, Seq<TrackView>), CodecError> {
    if b.len() < 4 {
        Err(CodecError::Truncated)
    } else if le_at(b, 0) != magic {
        Err(CodecError::BadMagic(le_at(b, 0)))
    } else if b.len() < 8 {
        Err(CodecError::Truncated)
    } else if FrameType::spec_from_tag(le_at(b, 4)) is None {
        Err(CodecError::BadFrameType(le_at(b, 4)))
    } else if b.len() < 32 {
        Err(CodecError::Truncated)
    } else {
        let h = header_spec(b);
        let ts = decoded_tracks(b, h);
        if forall|k: int| 0 <= k < 8 ==> ts[k] is Some {
            Ok((h, ts.map_values(|o: Option<TrackView>| o->0)))
        } else {
            Err(CodecError::Truncated)
        }
    }
}

/// The pool after the first `k` tracks were registered, in file order.
pub open spec fn pool_after(ts: Seq<TrackView>, baked: bool, k: nat) -> Seq<u32>
    decreases k,
{
    if k == 0 {
        Seq::empty()
    } else {
        register_spec(pool_after(ts, baked, (k - 1) as nat), flat_values(ts[k - 1], baked)).1
    }
}

/// The index of the run that holds track `k`'s values.
pub open spec fn track_index(ts: Seq<TrackView>, baked: bool, k: nat) -> int {
    register_spec(pool_after(ts, baked, k), flat_values(ts[k as int], baked)).0
}

/// The record of track `k`.
pub open spec fn track_record(ts: Seq<TrackView>, baked: bool, k: nat) -> Seq<u8> {
    record_bytes(
        pool_after(ts, baked, k + 1).len() as int,
        track_index(ts, baked, k),
        ts[k as int].usesinglescope,
        baked,
    )
}

/// The records of the first `n` tracks, in file order.
pub open spec fn records(ts: Seq<TrackView>, baked: bool, n: nat) -> Seq<u8>
    decreases n,
{
    if n == 0 {
        Seq::empty()
    } else {
        records(ts, baked, (n - 1) as nat) + track_record(ts, baked, (n - 1) as nat)
    }
}

/// The values of `p` as big-endian words.
pub open spec fn words_be(p: Seq<u32>) -> Seq<u8>
    decreases p.len(),
{
    if p.len() == 0 {
        Seq::empty()
    } else {
        words_be(p.drop_last()) + be_bytes(p.last())
    }
}

/// The 32-byte header written for a container.
pub open spec fn header_bytes(magic: u32, h: HeaderFields, baked: bool) -> Seq<u8> {
    le_bytes(magic) + le_bytes(FrameType::spec_for_mode(baked).spec_tag()) + be_bytes(
        h.unk1 as u32,
    ) + be_bytes(h.unk2 as u32) + be_bytes(h.unk3 as u32) + be_bytes(h.unk4 as u32) + be_bytes(
        h.frame_count as u32,
    ) + be_bytes(data_offset(baked))
}

/// Encoding a container: the header (its sub-format and data offset follow
/// `baked`, not `h`), the eight records, the block's size word, the pool
/// filled in file order, and the footer.
pub open spec fn encode_spec(magic: u32, h: HeaderFields, ts: Seq<TrackView>, baked: bool) -> Seq<u8> {
    let pool = pool_after(ts, baked, 8);
    header_bytes(magic, h, baked) + records(ts, baked, 8) + be_bytes(((pool.len() + 2) * 4) as u32)
        + words_be(pool) + footer()
}

/// The number of frames in the first `n` tracks.
pub open spec fn frames_total(ts: Seq<TrackView>, n: nat) -> nat
    decreases n,
{
    if n == 0 {
        0
    } else {
        frames_total(ts, (n - 1) as nat) + ts[n - 1].frames.len()
    }
}

/// A vector of tracks that a container can encode: eight tracks whose values
/// fit in one pool.
pub open spec fn encodable(ts: Seq<TrackView>) -> bool {
    ts.len() == 8 && 4 * frames_total(ts, 8) <= MAX_POOL_VALUES
}

pub proof fn lemma_flat_len(t: TrackView, baked: bool)
    ensures
        flat_values(t, baked).len() <= 4 * t.frames.len(),
{
    if t.frames.len() != 1 {
        let w = value_width(baked, t.usesinglescope);
        assert(t.frames.len() * w <= 4 * t.frames.len()) by (nonlinear_arith)
            requires
                w <= 4,
        ;
    }
}

pub proof fn lemma_pool_bound(ts: Seq<TrackView>, baked: bool, k: nat)
    ensures
        pool_after(ts, baked, k).len() <= 4 * frames_total(ts, k),
    decreases k,
{
    if k > 0 {
        lemma_pool_bound(ts, baked, (k - 1) as nat);
        lemma_flat_len(ts[k - 1], baked);
        lemma_register(pool_after(ts, baked, (k - 1) as nat), flat_values(ts[k - 1], baked));
    }
}

proof fn lemma_frames_total_mono(ts: Seq<TrackView>, k: nat, n: nat)
    requires
        k <= n,
    ensures
        frames_total(ts, k) <= frames_total(ts, n),
    decreases n,
{
    if k < n {
        lemma_frames_total_mono(ts, k, (n - 1) as nat);
    }
}

/// Whether `tracks` can be encoded: eight tracks whose values fit in one pool.
pub fn tracks_encodable(tracks: &Vec<Track>) -> (r: bool)
    ensures
        r == encodable(views(tracks@)),
{
    if tracks.len() != 8 {
        return false;
    }
    let ghost ts = views(tracks@);
    let mut total: usize = 0;
    let mut k: usize = 0;
    while k < 8
        invariant
            k <= 8,
            tracks@.len() == 8,
            ts == views(tracks@),
            total == frames_total(ts, k as nat),
            4 * total <= MAX_POOL_VALUES,
        decreases 8 - k,
    {
        let n = tracks[k].values.len();
        assert(ts[k as int].frames.len() == n);
        if n > (MAX_POOL_VALUES / 4) - total {
            proof {
                lemma_frames_total_mono(ts, (k + 1) as nat, 8);
            }
            return false;
        }
        total = total + n;
        k = k + 1;
    }
    true
}

/// Decodes `b` as a file of the family whose magic word is `magic`.
pub fn decode_animation(b: &[u8], magic: u32) -> (r: Result<(HeaderFields, Vec<Track>), CodecError>)
    ensures
        match r {
            Ok((h, ts)) => decode_spec(b@, magic) == Ok::<_, CodecError>((h, views(ts@))),
            Err(e) => decode_spec(b@, magic) == Err::<(HeaderFields, Seq<TrackView>), _>(e),
        },
{
    if b.len() < 4 {
        return Err(CodecError::Truncated);
    }
    let found = read_le(b, 0);
    if found != magic {
        return Err(CodecError::BadMagic(found));
    }
    if b.len() < 8 {
        return Err(CodecError::Truncated);
    }
    let tag = read_le(b, 4);
    let frame_type = match FrameType::from_tag(tag) {
        Some(t) => t,
        None => {
            return Err(CodecError::BadFrameType(tag));
        },
    };
    if b.len() < HEADER_SIZE {
        return Err(CodecError::Truncated);
    }
    let h = HeaderFields {
        frame_type,
        unk1: #[verifier::truncate] (read_be(b, 8) as i32),
        unk2: #[verifier::truncate] (read_be(b, 12) as i32),
        unk3: #[verifier::truncate] (read_be(b, 16) as i32),
        unk4: #[verifier::truncate] (read_be(b, 20) as i32),
        frame_count: #[verifier::truncate] (read_be(b, 24) as i32),
        offset: read_be(b, 28),
    };
    assert(h == header_spec(b@));
    let baked = frame_type == FrameType::CANM;
    let rec: usize = if baked {
        8
    } else {
        12
    };
    let anchor: u64 = 32 + h.offset as u64;
    let ghost spec_ts = decoded_tracks(b@, h);
    let mut tracks: Vec<Track> = Vec::new();
    let mut k: usize = 0;
    while k < 8
        invariant
            k <= 8,
            rec == record_size(baked),
            baked == (h.frame_type == FrameType::CANM),
            anchor == 32 + h.offset,
            h == header_spec(b@),
            b@.len() >= 32,
            le_at(b@, 0) == magic,
            FrameType::spec_from_tag(le_at(b@, 4)) is Some,
            spec_ts == decoded_tracks(b@, h),
            tracks@.len() == k,
            forall|j: int| 0 <= j < k ==> spec_ts[j] == Some(#[trigger] tracks@[j]@),
        decreases 8 - k,
    {
        match Track::load(b, HEADER_SIZE + k * rec, anchor, baked) {
            Ok(t) => {
                tracks.push(t);
            },
            Err(e) => {
                assert(spec_ts[k as int] is None);
                assert(!(forall|j: int| 0 <= j < 8 ==> spec_ts[j] is Some));
                return Err(e);
            },
        }
        k = k + 1;
    }
    assert forall|j: int| 0 <= j < 8 implies spec_ts[j] is Some by {
        assert(spec_ts[j] == Some(tracks@[j]@));
    }
    assert(views(tracks@) =~= spec_ts.map_values(|o: Option<TrackView>| o->0));
    Ok((h, tracks))
}

/// Encodes a container of the family whose magic word is `magic`. The
/// sub-format tag and the data offset follow `baked`; `h.frame_type` and
/// `h.offset` are not read.
pub fn encode_animation(magic: u32, h: &HeaderFields, tracks: &Vec<Track>, baked: bool) -> (r: Vec<u8>)
    requires
        encodable(views(tracks@)),
    ensures
        r@ == encode_spec(magic, *h, views(tracks@), baked),
{
    let ghost ts = views(tracks@);
    let mut out: Vec<u8> = Vec::new();
    push_le(&mut out, magic);
    push_le(&mut out, FrameType::for_mode(baked).tag());
    push_be(&mut out, h.unk1 as u32);
    push_be(&mut out, h.unk2 as u32);
    push_be(&mut out, h.unk3 as u32);
    push_be(&mut out, h.unk4 as u32);
    push_be(&mut out, h.frame_count as u32);
    push_be(
        &mut out,
        if baked {
            0x40
        } else {
            0x60
        },
    );
    let ghost head = out@;
    assert(head =~= header_bytes(magic, *h, baked));
    let mut pool = FramePool::new();
    let mut k: usize = 0;
    while k < 8
        invariant
            k <= 8,
            ts == views(tracks@),
            encodable(ts),
            out@ == head + records(ts, baked, k as nat),
            pool@ == pool_after(ts, baked, k as nat),
        decreases 8 - k,
    {
        proof {
            lemma_pool_bound(ts, baked, k as nat);
            lemma_frames_total_mono(ts, (k + 1) as nat, 8);
            assert(ts[k as int] == tracks@[k as int]@);
        }
        tracks[k].save(&mut out, &mut pool, baked);
        k = k + 1;
        assert(out@ =~= head + records(ts, baked, k as nat));
    }
    proof {
        lemma_pool_bound(ts, baked, 8);
    }
    let n = pool.len();
    push_be(&mut out, ((n + 2) * 4) as u32);
    let ghost mid = out@;
    let values = pool.values();
    let mut i: usize = 0;
    while i < n
        invariant
            n == values@.len(),
            i <= n,
            out@ == mid + words_be(values@.subrange(0, i as int)),
        decreases n - i,
    {
        push_be(&mut out, values[i]);
        proof {
            let s = values@.subrange(0, i + 1);
            assert(s.drop_last() =~= values@.subrange(0, i as int));
        }
        i = i + 1;
        assert(out@ =~= mid + words_be(values@.subrange(0, i as int)));
    }
    assert(values@.subrange(0, n as int) =~= values@);
    let tail: [u8; 12] = [0x3D, 0xCC, 0xCC, 0xCD, 0x4E, 0x6E, 0x6B, 0x28, 0xFF, 0xFF, 0xFF, 0xFF];
    let ghost before = out@;
    let mut j: usize = 0;
    while j < 12
        invariant
            j <= 12,
            tail@ == footer(),
            out@ == before + tail@.subrange(0, j as int),
        decreases 12 - j,
    {
        out.push(tail[j]);
        j = j + 1;
        assert(out@ =~= before + tail@.subrange(0, j as int));
    }
    assert(tail@.subrange(0, 12) =~= tail@);
    out
}

} // verus!
