//! Frames, tracks, and the encoding of one track.
use crate::error::CodecError;
use crate::float_bits::{index_bits, index_to_f32_bits};
use crate::pool::{register_spec, FramePool};
use crate::wire::{be_at, be_bytes, i32_of, push_be, read_be};
use vstd::arithmetic::div_mod::lemma_fundamental_div_mod_converse;
use vstd::prelude::*;

verus! {

/// The most values that one encode pass may hold in its pool: the block's
/// size word, `(len + 2) * 4`, must fit in an `i32`.
pub const MAX_POOL_VALUES: usize = 0x1FFF_FFFD;

/// One keyframe. Each field holds the bit pattern of an `f32`.
#[derive(Clone, Copy, Debug, PartialEq, Eq, Structural)]
pub struct Frame {
    pub frameid: u32,
    pub value: u32,
    pub inslope: u32,
    pub outslope: u32,
}

impl Frame {
    /// The frame whose fields are all `0.0`.
    pub fn new() -> (r: Frame)
        ensures
            r == (Frame { frameid: 0, value: 0, inslope: 0, outslope: 0 }),
    {
        Frame { frameid: 0, value: 0, inslope: 0, outslope: 0 }
    }
}

/// A track as a mathematical value.
pub ghost struct TrackView {
    pub frames: Seq<Frame>,
    pub usesinglescope: bool,
}

/// The keyframes of one channel. `usesinglescope` means something only in
/// keyed mode: each frame then stores one tangent instead of two.
#[derive(Clone, Debug)]
pub struct Track {
    pub values: Vec<Frame>,
    pub usesinglescope: bool,
}

impl View for Track {
    type V = TrackView;

    open spec fn view(&self) -> TrackView {
        TrackView { frames: self.values@, usesinglescope: self.usesinglescope }
    }
}

/// How many values each frame of a track with several frames takes.
pub open spec fn value_width(baked: bool, single: bool) -> nat {
    if baked {
        1
    } else if single {
        3
    } else {
        4
    }
}

/// The `k`-th value that frame `f` contributes: its value alone when baked;
/// id, value, in tangent and out tangent when keyed.
pub open spec fn frame_word(f: Frame, baked: bool, k: int) -> u32 {
    if baked || k == 1 {
        f.value
    } else if k == 0 {
        f.frameid
    } else if k == 2 {
        f.inslope
    } else {
        f.outslope
    }
}

/// The values that a track stores: a single frame stores its value alone;
/// otherwise each frame stores `value_width` values, in frame order.
pub open spec fn flat_values(t: TrackView, baked: bool) -> Seq<u32> {
    if t.frames.len() == 1 {
        seq![t.frames[0].value]
    } else {
        let w = value_width(baked, t.usesinglescope) as int;
        Seq::new(t.frames.len() * (w as nat), |j: int| frame_word(t.frames[j / w], baked, j % w))
    }
}

/// The size in bytes of one track record.
pub open spec fn record_size(baked: bool) -> int {
    if baked {
        8
    } else {
        12
    }
}

/// A track record: the pool's length after the track was registered, the
/// index of the track's run, and in keyed mode the tangent-scope selector.
pub open spec fn record_bytes(pool_len: int, index: int, single: bool, baked: bool) -> Seq<u8> {
    be_bytes(pool_len as u32) + be_bytes(index as u32) + if baked {
        Seq::<u8>::empty()
    } else {
        be_bytes(
            if single {
                1u32
            } else {
                0u32
            },
        )
    }
}

/// How many values a payload of `count` frames takes.
pub open spec fn payload_words(count: int, w: int) -> int {
    if count <= 0 {
        0
    } else if count == 1 {
        1
    } else {
        count * w
    }
}

/// Frame `i` of a payload of `count` frames that starts at byte `pos` of `b`.
pub open spec fn decoded_frame(
    b: Seq<u8>,
    pos: int,
    i: int,
    count: int,
    baked: bool,
    single: bool,
) -> Frame {
    if count == 1 {
        Frame { frameid: 0, value: be_at(b, pos), inslope: 0, outslope: 0 }
    } else if baked {
        Frame { frameid: index_bits(i as nat) as u32, value: be_at(b, pos + 4 * i), inslope: 0, outslope: 0 }
    } else {
        let base = pos + 4 * (i * value_width(false, single));
        Frame {
            frameid: be_at(b, base),
            value: be_at(b, base + 4),
            inslope: be_at(b, base + 8),
            outslope: if single {
                0
            } else {
                be_at(b, base + 12)
            },
        }
    }
}

/// The track whose record starts at byte `at` of `b`, with payloads addressed
/// from `anchor`; `None` where the record or its payload runs past the end.
pub open spec fn decode_track_spec(b: Seq<u8>, at: int, anchor: int, baked: bool) -> Option<
    TrackView,
> {
    if at + record_size(baked) > b.len() {
        None
    } else {
        let count = i32_of(be_at(b, at)) as int;
        let start = i32_of(be_at(b, at + 4)) as int;
        let single = !baked && be_at(b, at + 8) != 0;
        let pos = anchor + 4 + 4 * start;
        let words = payload_words(count, value_width(baked, single) as int);
        if words > 0 && (pos < 0 || pos + 4 * words > b.len()) {
            None
        } else {
            Some(
                TrackView {
                    frames: Seq::new(
                        if count > 0 {
                            count as nat
                        } else {
                            0
                        },
                        |i: int| decoded_frame(b, pos, i, count, baked, single),
                    ),
                    usesinglescope: single,
                },
            )
        }
    }
}

proof fn lemma_div_mod_block(j: int, w: int, i: int)
    requires
        0 < w,
        i * w <= j < i * w + w,
    ensures
        j / w == i,
        j % w == j - i * w,
{
    lemma_fundamental_div_mod_converse(j, w, i, j - i * w);
}

/// Frame `i` of a payload, read from `b`.
fn read_frame(b: &[u8], pos: usize, i: usize, count: i32, baked: bool, single: bool) -> (r: Frame)
    requires
        b@.len() <= usize::MAX,
        1 <= count,
        i < count,
        pos + 4 * payload_words(count as int, value_width(baked, single) as int) <= b@.len(),
    ensures
        r == decoded_frame(b@, pos as int, i as int, count as int, baked, single),
{
    if count == 1 {
        Frame { frameid: 0, value: read_be(b, pos), inslope: 0, outslope: 0 }
    } else if baked {
        assert(value_width(baked, single) == 1);
        assert(count as int * 1 == count as int);
        assert(payload_words(count as int, 1) == count as int);
        let id = index_to_f32_bits(i as u32);
        Frame { frameid: id, value: read_be(b, pos + 4 * i), inslope: 0, outslope: 0 }
    } else {
        let w: usize = if single {
            3
        } else {
            4
        };
        proof {
            assert(payload_words(count as int, w as int) == count * w);
            assert(4 * (i * w) + 4 * w <= 4 * (count * w)) by (nonlinear_arith)
                requires
                    i < count,
                    0 < w,
            ;
        }
        let base = pos + 4 * (i * w);
        Frame {
            frameid: read_be(b, base),
            value: read_be(b, base + 4),
            inslope: read_be(b, base + 8),
            outslope: if single {
                0
            } else {
                read_be(b, base + 12)
            },
        }
    }
}

impl Track {
    /// Reads the track whose record starts at byte `at` of `b`. The payload
    /// stands at `anchor + 4 + 4 * start`, where `start` is the record's second
    /// field; a record whose count is zero or less gives an empty track.
    pub fn load(b: &[u8], at: usize, anchor: u64, baked: bool) -> (r: Result<Track, CodecError>)
        requires
            anchor <= u32::MAX + 32,
        ensures
            match r {
                Ok(t) => decode_track_spec(b@, at as int, anchor as int, baked) == Some(t@),
                Err(e) => e == CodecError::Truncated && decode_track_spec(
                    b@,
                    at as int,
                    anchor as int,
                    baked,
                ) is None,
            },
    {
        let rec: usize = if baked {
            8
        } else {
            12
        };
        if b.len() < rec || at > b.len() - rec {
            return Err(CodecError::Truncated);
        }
        let count = #[verifier::truncate] (read_be(b, at) as i32);
        let start = #[verifier::truncate] (read_be(b, at + 4) as i32);
        let single = if baked {
            false
        } else {
            read_be(b, at + 8) != 0
        };
        let pos: i64 = anchor as i64 + 4 + 4 * (start as i64);
        if count <= 0 {
            let values: Vec<Frame> = Vec::new();
            assert(values@ =~= Seq::new(
                0,
                |i: int| decoded_frame(b@, pos as int, i, count as int, baked, single),
            ));
            return Ok(Track { values, usesinglescope: single });
        }
        let w: u64 = if baked {
            1
        } else if single {
            3
        } else {
            4
        };
        let words: u64 = if count == 1 {
            1
        } else {
            count as u64 * w
        };
        let len = b.len() as u64;
        if pos < 0 || 4 * words > len || pos as u64 > len - 4 * words {
            return Err(CodecError::Truncated);
        }
        let p = pos as usize;
        let mut values: Vec<Frame> = Vec::new();
        let mut i: usize = 0;
        while i < count as usize
            invariant
                b@.len() <= usize::MAX,
                1 <= count,
                i <= count,
                p as int == pos as int,
                p + 4 * payload_words(count as int, value_width(baked, single) as int) <= b@.len(),
                values@ =~= Seq::new(
                    i as nat,
                    |k: int| decoded_frame(b@, pos as int, k, count as int, baked, single),
                ),
            decreases count - i,
        {
            let f = read_frame(b, p, i, count, baked, single);
            values.push(f);
            i = i + 1;
        }
        Ok(Track { values, usesinglescope: single })
    }

    /// The values that this track stores, as `flat_values` gives them.
    pub fn flat_values(&self, baked: bool) -> (r: Vec<u32>)
        requires
            self.values@.len() * 4 <= MAX_POOL_VALUES,
        ensures
            r@ == flat_values(self@, baked),
    {
        let n = self.values.len();
        let mut out: Vec<u32> = Vec::new();
        if n == 1 {
            out.push(self.values[0].value);
            assert(out@ =~= flat_values(self@, baked));
            return out;
        }
        let w: usize = if baked {
            1
        } else if self.usesinglescope {
            3
        } else {
            4
        };
        let ghost wi = w as int;
        let mut i: usize = 0;
        while i < n
            invariant
                n == self.values@.len(),
                n * 4 <= MAX_POOL_VALUES,
                n != 1,
                wi == w,
                w == value_width(baked, self.usesinglescope),
                i <= n,
                out@ =~= Seq::new(
                    (i * w) as nat,
                    |j: int| frame_word(self.values@[j / wi], baked, j % wi),
                ),
            decreases n - i,
        {
            let f = self.values[i];
            let ghost before = out@;
            proof {
                assert(i * w + w <= n * 4) by (nonlinear_arith)
                    requires
                        i < n,
                        w <= 4,
                ;
                assert((i + 1) * w == i * w + w) by (nonlinear_arith);
            }
            if baked {
                out.push(f.value);
            } else {
                out.push(f.frameid);
                out.push(f.value);
                out.push(f.inslope);
                if !self.usesinglescope {
                    out.push(f.outslope);
                }
            }
            proof {
                assert forall|j: int| i * wi <= j < i * wi + wi implies #[trigger] (j / wi) == i && j % wi == j
                    - i * wi by {
                    lemma_div_mod_block(j, wi, i as int);
                }
                assert(out@ =~= Seq::new(
                    ((i + 1) * w) as nat,
                    |j: int| frame_word(self.values@[j / wi], baked, j % wi),
                ));
            }
            i = i + 1;
        }
        out
    }

    /// Registers this track's values in `pool` and writes its record to `out`:
    /// the pool's length afterwards, the index of the run that holds the
    /// values, and in keyed mode the tangent-scope selector (1 for one tangent).
    pub fn save(&self, out: &mut Vec<u8>, pool: &mut FramePool, baked: bool)
        requires
            old(pool)@.len() + self.values@.len() * 4 <= MAX_POOL_VALUES,
        ensures
            ({
                let (index, after) = register_spec(old(pool)@, flat_values(self@, baked));
                &&& final(pool)@ == after
                &&& final(out)@ == old(out)@ + record_bytes(
                    after.len() as int,
                    index,
                    self.usesinglescope,
                    baked,
                )
            }),
    {
        let data = self.flat_values(baked);
        proof {
            assert(data@.len() <= self.values@.len() * 4) by (nonlinear_arith)
                requires
                    data@.len() == flat_values(self@, baked).len(),
                    self.values@.len() != 1 ==> data@.len() == self.values@.len()
                        * value_width(baked, self.usesinglescope),
                    self.values@.len() == 1 ==> data@.len() == 1,
                    value_width(baked, self.usesinglescope) <= 4,
            ;
        }
        let index = pool.register(data.as_slice());
        proof {
            crate::pool::lemma_register(old(pool)@, data@);
        }
        let ghost out0 = out@;
        push_be(out, pool.len() as u32);
        push_be(out, index as u32);
        if !baked {
            push_be(
                out,
                if self.usesinglescope {
                    1
                } else {
                    0
                },
            );
        }
        assert(out@ =~= out0 + record_bytes(pool@.len() as int, index as int, self.usesinglescope, baked));
    }
}

} // verus!
