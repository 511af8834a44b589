//! What holds of decoding and encoding taken together.
use crate::codec::{
    data_offset, decode_spec, decoded_tracks, encodable, encode_spec, header_bytes,
    header_spec, lemma_pool_bound, pool_after, track_index, track_record, FrameType,
    HeaderFields, TrackSelection, BAKED_TAG, KEYED_TAG,
};
use crate::error::CodecError;
use crate::layout::{
    lemma_encode_layout, lemma_pool_prefix, lemma_read_be_inside, lemma_record_in_encoding,
    lemma_value_in_encoding,
};
use crate::pool::{first_match, lemma_first_match, lemma_register, occurs_at, register_spec};
use crate::track::{
    decode_track_spec, decoded_frame, flat_values, frame_word, payload_words,
    record_size, value_width, Frame, TrackView, MAX_POOL_VALUES,
};
use crate::wire::{
    be_at, be_bytes, i32_of, le_at, le_bytes, lemma_i32_round_trip, lemma_le_read_written,
    lemma_small_i32,
};
use vstd::arithmetic::div_mod::lemma_fundamental_div_mod_converse;
use vstd::prelude::*;

verus! {

/// Each track's record count, which is the pool's length after the track was
/// registered, equals the track's frame count.
pub open spec fn counts_agree(ts: Seq<TrackView>, baked: bool) -> bool {
    forall|k: int|
        0 <= k < 8 ==> #[trigger] pool_after(ts, baked, (k + 1) as nat).len() == ts[k].frames.len()
}

proof fn lemma_pool_fits(ts: Seq<TrackView>, baked: bool, k: nat)
    requires
        encodable(ts),
        k <= 8,
    ensures
        pool_after(ts, baked, k).len() <= pool_after(ts, baked, 8).len(),
        pool_after(ts, baked, 8).len() <= MAX_POOL_VALUES,
{
    lemma_pool_prefix(ts, baked, k, 8);
    lemma_pool_bound(ts, baked, 8);
}

/// The three fields of track `k`'s record, read back from an encoded file.
proof fn lemma_record_fields(magic: u32, h: HeaderFields, ts: Seq<TrackView>, baked: bool, k: nat)
    requires
        encodable(ts),
        k < 8,
    ensures
        ({
            let e = encode_spec(magic, h, ts, baked);
            let at = 32 + k * record_size(baked);
            let idx = track_index(ts, baked, k);
            &&& at + record_size(baked) <= 32 + 8 * record_size(baked)
            &&& i32_of(be_at(e, at)) as int == pool_after(ts, baked, k + 1).len()
            &&& i32_of(be_at(e, at + 4)) as int == idx
            &&& 0 <= idx
            &&& idx + flat_values(ts[k as int], baked).len() <= pool_after(ts, baked, k + 1).len()
            &&& occurs_at(pool_after(ts, baked, k + 1), flat_values(ts[k as int], baked), idx)
            &&& !baked ==> (be_at(e, at + 8) != 0 <==> ts[k as int].usesinglescope)
        }),
{
    let e = encode_spec(magic, h, ts, baked);
    let rs = record_size(baked);
    let at = 32 + k * rs;
    let after = pool_after(ts, baked, k + 1);
    let idx = track_index(ts, baked, k);
    let single = ts[k as int].usesinglescope;
    let rec = track_record(ts, baked, k);
    lemma_record_in_encoding(magic, h, ts, baked, k);
    lemma_encode_layout(magic, h, ts, baked);
    lemma_register(pool_after(ts, baked, k), flat_values(ts[k as int], baked));
    lemma_pool_fits(ts, baked, k + 1);
    assert((k + 1) * rs == at - 32 + rs) by (nonlinear_arith)
        requires
            at == 32 + k * rs,
    ;
    assert((k + 1) * rs <= 8 * rs) by (nonlinear_arith)
        requires
            k < 8,
            rs > 0,
    ;
    assert(rec.subrange(0, 4) =~= be_bytes(after.len() as u32));
    lemma_read_be_inside(e, rec, at, 0, after.len() as u32);
    lemma_small_i32(after.len() as int);
    assert(rec.subrange(4, 8) =~= be_bytes(idx as u32));
    lemma_read_be_inside(e, rec, at, 4, idx as u32);
    lemma_small_i32(idx);
    if !baked {
        let sel: u32 = if single {
            1
        } else {
            0
        };
        assert(rec.subrange(8, 12) =~= be_bytes(sel));
        lemma_read_be_inside(e, rec, at, 8, sel);
    }
}

/// The payload of track `k` reads back from an encoded file.
proof fn lemma_payload_values(magic: u32, h: HeaderFields, ts: Seq<TrackView>, baked: bool, k: nat, j: int)
    requires
        encodable(ts),
        k < 8,
        0 <= j < flat_values(ts[k as int], baked).len(),
    ensures
        be_at(
            encode_spec(magic, h, ts, baked),
            32 + 8 * record_size(baked) + 4 + 4 * (track_index(ts, baked, k) + j),
        ) == flat_values(ts[k as int], baked)[j],
{
    let idx = track_index(ts, baked, k);
    let s = flat_values(ts[k as int], baked);
    let after = pool_after(ts, baked, k + 1);
    let pool = pool_after(ts, baked, 8);
    lemma_register(pool_after(ts, baked, k), s);
    lemma_pool_prefix(ts, baked, k + 1, 8);
    assert(after.subrange(idx, idx + s.len())[j] == s[j]);
    assert(pool[idx + j] == pool.subrange(0, after.len() as int)[idx + j]);
    lemma_value_in_encoding(magic, h, ts, baked, idx + j);
}

/// Track `k` of a decoded file decodes back from the encoding of that file.
proof fn lemma_track_round_trip(b: Seq<u8>, magic: u32, h: HeaderFields, ts: Seq<TrackView>, k: nat)
    requires
        decode_spec(b, magic) == Ok::<_, CodecError>((h, ts)),
        h.offset == data_offset(h.frame_type == FrameType::CANM),
        counts_agree(ts, h.frame_type == FrameType::CANM),
        encodable(ts),
        k < 8,
    ensures
        ({
            let baked = h.frame_type == FrameType::CANM;
            decode_track_spec(
                encode_spec(magic, h, ts, baked),
                32 + k * record_size(baked),
                32 + h.offset,
                baked,
            ) == Some(ts[k as int])
        }),
{
    let baked = h.frame_type == FrameType::CANM;
    let e = encode_spec(magic, h, ts, baked);
    let rs = record_size(baked);
    let at = 32 + k * rs;
    let anchor = 32 + h.offset;
    assert(decoded_tracks(b, h)[k as int] is Some);
    let t = ts[k as int];
    assert(decode_track_spec(b, at, anchor, baked) == Some(t));
    let count_b = i32_of(be_at(b, at)) as int;
    let start_b = i32_of(be_at(b, at + 4)) as int;
    let single = !baked && be_at(b, at + 8) != 0;
    let pos_b = anchor + 4 + 4 * start_b;
    assert(t.usesinglescope == single);
    let n = t.frames.len();
    lemma_record_fields(magic, h, ts, baked, k);
    lemma_encode_layout(magic, h, ts, baked);
    lemma_pool_fits(ts, baked, k + 1);
    let idx = track_index(ts, baked, k);
    let s = flat_values(t, baked);
    let pool = pool_after(ts, baked, 8);
    assert(pool_after(ts, baked, k + 1).len() == n);
    assert(i32_of(be_at(e, at)) as int == n);
    assert(i32_of(be_at(e, at + 4)) as int == idx);
    let single_e = !baked && be_at(e, at + 8) != 0;
    assert(single_e == single);
    let pos = anchor + 4 + 4 * idx;
    assert(anchor == 32 + 8 * rs);
    let w = value_width(baked, single) as int;
    assert(payload_words(n as int, w) == s.len());
    assert(pos + 4 * s.len() <= e.len());
    let frames_e = Seq::new(n, |i: int| decoded_frame(e, pos, i, n as int, baked, single));
    assert forall|i: int| 0 <= i < n implies #[trigger] frames_e[i] == t.frames[i] by {
        assert(t.frames[i] == decoded_frame(b, pos_b, i, count_b, baked, single));
        assert(count_b == n);
        if n == 1 {
            lemma_payload_values(magic, h, ts, baked, k, 0);
        } else if baked {
            assert(i / 1 == i && i % 1 == 0);
            lemma_payload_values(magic, h, ts, baked, k, i);
        } else {
            assert(i * w + w <= n * w) by (nonlinear_arith)
                requires
                    i < n,
                    w > 0,
            ;
            assert forall|c: int| 0 <= c < w implies #[trigger] s[i * w + c] == frame_word(
                t.frames[i],
                baked,
                c,
            ) && be_at(e, pos + 4 * (i * w) + 4 * c) == s[i * w + c] by {
                lemma_fundamental_div_mod_converse(i * w + c, w, i, c);
                lemma_payload_values(magic, h, ts, baked, k, i * w + c);
            }
            assert(s[i * w + 0] == frame_word(t.frames[i], baked, 0));
            assert(s[i * w + 1] == frame_word(t.frames[i], baked, 1));
            assert(s[i * w + 2] == frame_word(t.frames[i], baked, 2));
            if !single {
                assert(s[i * w + 3] == frame_word(t.frames[i], baked, 3));
            }
        }
    }
    assert(frames_e =~= t.frames);
}

/// Decoding the encoding of a decoded file gives that file back: the same
/// header fields, the same frames in every track, the same mode. This holds
/// where the file already carries the data offset that its mode writes, and
/// where each track's frame count equals the pool length that its record
/// carries as its count.
pub proof fn lemma_round_trip(b: Seq<u8>, magic: u32, h: HeaderFields, ts: Seq<TrackView>)
    requires
        decode_spec(b, magic) == Ok::<_, CodecError>((h, ts)),
        h.offset == data_offset(h.frame_type == FrameType::CANM),
        counts_agree(ts, h.frame_type == FrameType::CANM),
        encodable(ts),
    ensures
        decode_spec(encode_spec(magic, h, ts, h.frame_type == FrameType::CANM), magic) == Ok::<
            _,
            CodecError,
        >((h, ts)),
{
    let baked = h.frame_type == FrameType::CANM;
    let e = encode_spec(magic, h, ts, baked);
    let hd = header_bytes(magic, h, baked);
    lemma_encode_layout(magic, h, ts, baked);
    assert(e.len() >= 32);
    assert(e.subrange(0, 4) =~= le_bytes(magic));
    lemma_le_read_written(e, 0, magic);
    let ft = FrameType::spec_for_mode(baked);
    assert(ft == h.frame_type);
    assert(e.subrange(4, 8) =~= le_bytes(ft.spec_tag()));
    lemma_le_read_written(e, 4, ft.spec_tag());
    assert(hd.subrange(8, 12) =~= be_bytes(h.unk1 as u32));
    assert(hd.subrange(12, 16) =~= be_bytes(h.unk2 as u32));
    assert(hd.subrange(16, 20) =~= be_bytes(h.unk3 as u32));
    assert(hd.subrange(20, 24) =~= be_bytes(h.unk4 as u32));
    assert(hd.subrange(24, 28) =~= be_bytes(h.frame_count as u32));
    assert(hd.subrange(28, 32) =~= be_bytes(data_offset(baked)));
    lemma_read_be_inside(e, hd, 0, 8, h.unk1 as u32);
    lemma_read_be_inside(e, hd, 0, 12, h.unk2 as u32);
    lemma_read_be_inside(e, hd, 0, 16, h.unk3 as u32);
    lemma_read_be_inside(e, hd, 0, 20, h.unk4 as u32);
    lemma_read_be_inside(e, hd, 0, 24, h.frame_count as u32);
    lemma_read_be_inside(e, hd, 0, 28, data_offset(baked));
    lemma_i32_round_trip(h.unk1);
    lemma_i32_round_trip(h.unk2);
    lemma_i32_round_trip(h.unk3);
    lemma_i32_round_trip(h.unk4);
    lemma_i32_round_trip(h.frame_count);
    assert(header_spec(e) == h);
    let dt = decoded_tracks(e, h);
    assert forall|k: int| 0 <= k < 8 implies #[trigger] dt[k] == Some(ts[k]) by {
        lemma_track_round_trip(b, magic, h, ts, k as nat);
    }
    assert(dt.map_values(|o: Option<TrackView>| o->0) =~= ts);
}

/// A track of one frame stores its value alone, in both modes.
pub proof fn lemma_single_frame_stored(t: TrackView, baked: bool)
    requires
        t.frames.len() == 1,
    ensures
        flat_values(t, baked) == seq![t.frames[0].value],
{
}

/// A record whose count is one decodes to one frame that holds the value
/// read, with id and tangents zero, in both modes.
pub proof fn lemma_single_frame_loaded(b: Seq<u8>, at: int, anchor: int, baked: bool)
    requires
        decode_track_spec(b, at, anchor, baked) is Some,
        i32_of(be_at(b, at)) == 1,
    ensures
        ({
            let t = decode_track_spec(b, at, anchor, baked)->0;
            let pos = anchor + 4 + 4 * (i32_of(be_at(b, at + 4)) as int);
            &&& t.frames.len() == 1
            &&& t.frames[0] == (Frame {
                frameid: 0,
                value: be_at(b, pos),
                inslope: 0,
                outslope: 0,
            })
        }),
{
}

/// When a later track stores the same values as an earlier one, registering
/// it adds nothing to the pool, and its record points at a run that holds
/// those values, no later than the earlier track's run.
pub proof fn lemma_dedup(ts: Seq<TrackView>, baked: bool, i: nat, j: nat)
    requires
        i < j < 8,
        flat_values(ts[i as int], baked) == flat_values(ts[j as int], baked),
    ensures
        pool_after(ts, baked, j + 1) == pool_after(ts, baked, j),
        track_index(ts, baked, j) <= track_index(ts, baked, i),
        occurs_at(pool_after(ts, baked, 8), flat_values(ts[j as int], baked), track_index(ts, baked, j)),
{
    let s = flat_values(ts[j as int], baked);
    let pi = pool_after(ts, baked, i + 1);
    let pj = pool_after(ts, baked, j);
    let idx = track_index(ts, baked, i);
    lemma_register(pool_after(ts, baked, i), s);
    lemma_pool_prefix(ts, baked, i + 1, j);
    assert(pj.subrange(idx, idx + s.len()) =~= pi.subrange(idx, idx + s.len())) by {
        assert forall|t: int| 0 <= t < s.len() implies #[trigger] pj.subrange(idx, idx + s.len())[t]
            == pi.subrange(idx, idx + s.len())[t] by {
            assert(pj[idx + t] == pj.subrange(0, pi.len() as int)[idx + t]);
        }
    }
    assert(occurs_at(pj, s, idx));
    lemma_first_match(pj, s);
    lemma_register(pj, s);
    lemma_pool_prefix(ts, baked, j + 1, 8);
    let pj1 = pool_after(ts, baked, j + 1);
    let p8 = pool_after(ts, baked, 8);
    let jdx = track_index(ts, baked, j);
    assert(p8.subrange(jdx, jdx + s.len()) =~= pj1.subrange(jdx, jdx + s.len())) by {
        assert forall|t: int| 0 <= t < s.len() implies #[trigger] p8.subrange(jdx, jdx + s.len())[t]
            == pj1.subrange(jdx, jdx + s.len())[t] by {
            assert(p8[jdx + t] == p8.subrange(0, pj1.len() as int)[jdx + t]);
        }
    }
}

proof fn lemma_shared_prefix(ts: Seq<TrackView>, baked: bool, k: nat)
    requires
        ts.len() == 8,
        1 <= k <= 8,
        forall|m: int| 0 <= m < 8 ==> #[trigger] flat_values(ts[m], baked) == flat_values(ts[0], baked),
    ensures
        pool_after(ts, baked, k) == flat_values(ts[0], baked),
    decreases k,
{
    let s = flat_values(ts[0], baked);
    if k == 1 {
        let e = Seq::<u32>::empty();
        lemma_first_match(e, s);
        assert(pool_after(ts, baked, 0) == e);
        if s.len() == 0 {
            assert(e.subrange(0, 0) =~= s);
            assert(occurs_at(e, s, 0));
            assert(register_spec(e, s).1 == e);
            assert(e =~= s);
        } else {
            assert(first_match(e, s) is None);
            assert(register_spec(e, s).1 == e + s);
            assert(e + s =~= s);
        }
    } else {
        lemma_shared_prefix(ts, baked, (k - 1) as nat);
        lemma_dedup(ts, baked, 0, (k - 1) as nat);
    }
}

/// When all eight tracks store the same values, the pool holds them once.
pub proof fn lemma_shared_payload(ts: Seq<TrackView>, baked: bool)
    requires
        ts.len() == 8,
        forall|k: int| 0 <= k < 8 ==> #[trigger] flat_values(ts[k], baked) == flat_values(ts[0], baked),
    ensures
        pool_after(ts, baked, 8) == flat_values(ts[0], baked),
{
    lemma_shared_prefix(ts, baked, 8);
}

/// The header of an encoded file carries the sub-format and the data offset
/// of its mode: the baked tag and 0x40 when baked, the keyed tag and 0x60
/// otherwise, whatever the header's own sub-format and offset fields hold.
pub proof fn lemma_mode_consistency(magic: u32, h: HeaderFields, ts: Seq<TrackView>, baked: bool)
    ensures
        ({
            let e = encode_spec(magic, h, ts, baked);
            &&& baked ==> le_at(e, 4) == BAKED_TAG && be_at(e, 28) == 0x40
            &&& !baked ==> le_at(e, 4) == KEYED_TAG && be_at(e, 28) == 0x60
        }),
{
    let e = encode_spec(magic, h, ts, baked);
    let hd = header_bytes(magic, h, baked);
    lemma_encode_layout(magic, h, ts, baked);
    let tag = FrameType::spec_for_mode(baked).spec_tag();
    assert(e.subrange(4, 8) =~= le_bytes(tag));
    lemma_le_read_written(e, 4, tag);
    assert(hd.subrange(28, 32) =~= be_bytes(data_offset(baked)));
    lemma_read_be_inside(e, hd, 0, 28, data_offset(baked));
}

/// Files store the channels in one fixed order, PositionX to FieldOfView:
/// the record of the track held for channel `sel` stands at
/// `32 + index(sel) * record_size`.
pub proof fn lemma_fixed_order(
    magic: u32,
    h: HeaderFields,
    ts: Seq<TrackView>,
    baked: bool,
    sel: TrackSelection,
)
    ensures
        forall|i: int| 0 <= i < 8 ==> (#[trigger] TrackSelection::all()[i]).spec_index() == i,
        ({
            let e = encode_spec(magic, h, ts, baked);
            let rs = record_size(baked);
            let k = sel.spec_index();
            e.subrange(32 + k * rs, 32 + (k + 1) * rs) == track_record(ts, baked, k as nat)
        }),
{
    lemma_record_in_encoding(magic, h, ts, baked, sel.spec_index() as nat);
}

} // verus!
