//! The container family whose header type is `CAMNHeader`.
use crate::codec::{
    decode_animation, decode_spec, encodable, encode_animation, encode_spec, tracks_encodable,
    views, FrameType, HeaderFields, TrackSelection,
};
use crate::error::CodecError;
use crate::track::{Track, TrackView};
use vstd::prelude::*;

verus! {

/// The magic word of this family, as a little-endian `u32`.
pub const CAMN_MAGIC: u32 = 0x4F44_4E41;

/// The magic word of this family.
#[derive(Clone, Copy, Debug, PartialEq, Eq, Structural)]
pub enum CAMNMagic {
    MAGIC,
}

impl CAMNMagic {
    /// The word as it is read from a file.
    pub fn value(self) -> (r: u32)
        ensures
            r == CAMN_MAGIC,
    {
        CAMN_MAGIC
    }
}

/// The 32-byte header of a file of this family.
#[derive(Clone, Copy, Debug, PartialEq, Eq, Structural)]
pub struct CAMNHeader {
    pub magic: CAMNMagic,
    pub frame_type: FrameType,
    pub unk1: i32,
    pub unk2: i32,
    pub unk3: i32,
    pub unk4: i32,
    pub frame_count: i32,
    pub offset: u32,
}

impl CAMNHeader {
    pub open spec fn spec_fields(self) -> HeaderFields {
        HeaderFields {
            frame_type: self.frame_type,
            unk1: self.unk1,
            unk2: self.unk2,
            unk3: self.unk3,
            unk4: self.unk4,
            frame_count: self.frame_count,
            offset: self.offset,
        }
    }

    /// The fields that the codec reads and writes.
    pub fn fields(&self) -> (r: HeaderFields)
        ensures
            r == self.spec_fields(),
    {
        HeaderFields {
            frame_type: self.frame_type,
            unk1: self.unk1,
            unk2: self.unk2,
            unk3: self.unk3,
            unk4: self.unk4,
            frame_count: self.frame_count,
            offset: self.offset,
        }
    }

    /// The header that holds the fields `h`.
    pub fn from_fields(h: HeaderFields) -> (r: CAMNHeader)
        ensures
            r.spec_fields() == h,
    {
        CAMNHeader {
            magic: CAMNMagic::MAGIC,
            frame_type: h.frame_type,
            unk1: h.unk1,
            unk2: h.unk2,
            unk3: h.unk3,
            unk4: h.unk4,
            frame_count: h.frame_count,
            offset: h.offset,
        }
    }
}

/// A decoded file: the header, the eight tracks in file order (index `i`
/// holds the channel `TrackSelection::all()[i]`), and whether it is baked.
#[derive(Clone, Debug)]
pub struct CAMN {
    pub header: CAMNHeader,
    pub tracks: Vec<Track>,
    pub isfullframes: bool,
}

impl CAMN {
    /// Decodes a file. `isfullframes` is derived from the sub-format tag read.
    pub fn load(b: &[u8]) -> (r: Result<CAMN, CodecError>)
        ensures
            match r {
                Ok(c) => decode_spec(b@, CAMN_MAGIC) == Ok::<_, CodecError>(
                    (c.header.spec_fields(), views(c.tracks@)),
                ) && c.isfullframes == (c.header.frame_type == FrameType::CANM),
                Err(e) => decode_spec(b@, CAMN_MAGIC) == Err::<(HeaderFields, Seq<TrackView>), _>(e),
            },
    {
        match decode_animation(b, CAMN_MAGIC) {
            Ok((h, tracks)) => {
                let header = CAMNHeader::from_fields(h);
                let isfullframes = h.frame_type == FrameType::CANM;
                Ok(CAMN { header, tracks, isfullframes })
            },
            Err(e) => Err(e),
        }
    }

    /// Whether `save` may be called: eight tracks whose values fit in one pool.
    pub fn is_encodable(&self) -> (r: bool)
        ensures
            r == encodable(views(self.tracks@)),
    {
        tracks_encodable(&self.tracks)
    }

    /// Encodes the file. The sub-format tag and data offset follow
    /// `isfullframes`, whatever `header.frame_type` and `header.offset` hold.
    pub fn save(&self) -> (r: Vec<u8>)
        requires
            encodable(views(self.tracks@)),
        ensures
            r@ == encode_spec(CAMN_MAGIC, self.header.spec_fields(), views(self.tracks@), self.isfullframes),
    {
        let h = self.header.fields();
        encode_animation(CAMN_MAGIC, &h, &self.tracks, self.isfullframes)
    }

    /// The track of channel `sel`.
    pub fn track(&self, sel: TrackSelection) -> (r: &Track)
        requires
            self.tracks@.len() == 8,
        ensures
            *r == self.tracks@[sel.spec_index()],
    {
        &self.tracks[sel.index()]
    }
}

} // verus!
