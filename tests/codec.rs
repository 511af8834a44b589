use canm_codec::camn::{CAMNHeader, CAMNMagic, CAMN};
use canm_codec::canm::{CANMHeader, CANMMagic, CANM, CANM_MAGIC};
use canm_codec::codec::{FrameType, TrackSelection};
use canm_codec::error::CodecError;
use canm_codec::float_bits::index_to_f32_bits;
use canm_codec::pool::FramePool;
use canm_codec::track::{Frame, Track};

fn bits(x: f32) -> u32 {
    x.to_bits()
}

fn baked_frame(v: f32) -> Frame {
    Frame { frameid: 0, value: bits(v), inslope: 0, outslope: 0 }
}

fn keyed_frame(id: f32, v: f32, i: f32, o: f32) -> Frame {
    Frame { frameid: bits(id), value: bits(v), inslope: bits(i), outslope: bits(o) }
}

fn track(values: Vec<Frame>, single: bool) -> Track {
    Track { values, usesinglescope: single }
}

fn canm(tracks: Vec<Track>, full: bool) -> CANM {
    let mut header = CANMHeader::new();
    header.unk1 = 1;
    header.frame_count = 2;
    if !full {
        header.frame_type = FrameType::CKAN;
        header.offset = 0x60;
    } else {
        header.offset = 0x40;
    }
    CANM { header, tracks, isfullframes: full }
}

fn be(v: u32) -> Vec<u8> {
    v.to_be_bytes().to_vec()
}

const FOOTER: [u8; 12] = [0x3D, 0xCC, 0xCC, 0xCD, 0x4E, 0x6E, 0x6B, 0x28, 0xFF, 0xFF, 0xFF, 0xFF];

fn fixture_bytes() -> Vec<u8> {
    let mut b = vec![0x41, 0x4E, 0x44, 0x4F, 0x43, 0x41, 0x4E, 0x4D];
    b.extend(be(1));
    b.extend(be(0));
    b.extend(be(0));
    b.extend(be(0));
    b.extend(be(2));
    b.extend(be(0x40));
    for _ in 0..8 {
        b.extend(be(2));
        b.extend(be(0));
    }
    b.extend(be(16));
    b.extend(be(0x3F80_0000));
    b.extend(be(0x4000_0000));
    b.extend(FOOTER);
    b
}

fn fixture() -> CANM {
    let tracks = (0..8).map(|_| track(vec![baked_frame(1.0), baked_frame(2.0)], false)).collect();
    canm(tracks, true)
}

#[test]
fn fixture_encodes_byte_exact() {
    let c = fixture();
    assert!(c.is_encodable());
    assert_eq!(c.save(), fixture_bytes());
}

#[test]
fn fixture_decodes_with_index_frame_ids() {
    let c = CANM::load(&fixture_bytes()).unwrap();
    assert!(c.isfullframes);
    assert_eq!(c.header.magic, CANMMagic::ANDO);
    assert_eq!(c.header.frame_type, FrameType::CANM);
    assert_eq!(c.header.unk1, 1);
    assert_eq!(c.header.frame_count, 2);
    assert_eq!(c.header.offset, 0x40);
    assert_eq!(c.tracks.len(), 8);
    for t in &c.tracks {
        assert_eq!(t.values.len(), 2);
        assert_eq!(t.values[0], Frame { frameid: bits(0.0), value: bits(1.0), inslope: 0, outslope: 0 });
        assert_eq!(t.values[1], Frame { frameid: bits(1.0), value: bits(2.0), inslope: 0, outslope: 0 });
    }
}

#[test]
fn decode_encode_round_trip() {
    let b = fixture_bytes();
    let c = CANM::load(&b).unwrap();
    let again = CANM::load(&c.save()).unwrap();
    assert_eq!(again.header, c.header);
    assert_eq!(again.isfullframes, c.isfullframes);
    for k in 0..8 {
        assert_eq!(again.tracks[k].values, c.tracks[k].values);
        assert_eq!(again.tracks[k].usesinglescope, c.tracks[k].usesinglescope);
    }
    assert_eq!(c.save(), b);
}

#[test]
fn single_frame_round_trip_both_modes() {
    for full in [true, false] {
        let tracks = (0..8)
            .map(|_| track(vec![keyed_frame(5.0, 3.5, 7.0, 9.0)], false))
            .collect();
        let c = canm(tracks, full);
        let bytes = c.save();
        let rec = if full { 8 } else { 12 };
        // count 1, index 0 for every record; the pool holds the value alone
        for k in 0..8 {
            let at = 32 + k * rec;
            assert_eq!(&bytes[at..at + 8], &[0, 0, 0, 1, 0, 0, 0, 0]);
        }
        let data = 32 + 8 * rec;
        assert_eq!(&bytes[data..data + 4], &be(12)[..]);
        assert_eq!(&bytes[data + 4..data + 8], &be(bits(3.5))[..]);
        assert_eq!(bytes.len(), data + 8 + 12);
        let d = CANM::load(&bytes).unwrap();
        for t in &d.tracks {
            assert_eq!(t.values, vec![Frame { frameid: 0, value: bits(3.5), inslope: 0, outslope: 0 }]);
        }
    }
}

#[test]
fn equal_tracks_share_one_payload() {
    let same = vec![baked_frame(4.0), baked_frame(8.0), baked_frame(16.0)];
    let tracks = (0..8).map(|_| track(same.clone(), false)).collect();
    let bytes = canm(tracks, true).save();
    for k in 0..8 {
        let at = 32 + k * 8;
        assert_eq!(&bytes[at..at + 8], &[0, 0, 0, 3, 0, 0, 0, 0]);
    }
    // size word (3 + 2) * 4, then three values, then the footer
    assert_eq!(&bytes[96..100], &be(20)[..]);
    assert_eq!(bytes.len(), 100 + 12 + 12);
}

#[test]
fn later_track_reuses_earlier_run() {
    let mut tracks: Vec<Track> = Vec::new();
    tracks.push(track(vec![baked_frame(1.0), baked_frame(2.0), baked_frame(3.0)], false));
    tracks.push(track(vec![baked_frame(2.0), baked_frame(3.0)], false));
    for _ in 2..8 {
        tracks.push(track(vec![baked_frame(1.0), baked_frame(2.0), baked_frame(3.0)], false));
    }
    let bytes = canm(tracks, true).save();
    // the second track finds its values at index 1 of the pool
    assert_eq!(&bytes[40..48], &[0, 0, 0, 3, 0, 0, 0, 1]);
    assert_eq!(&bytes[96..100], &be(20)[..]);
}

#[test]
fn keyed_records_carry_scope_and_pool_length() {
    let mut tracks: Vec<Track> = Vec::new();
    tracks.push(track(vec![keyed_frame(0.0, 1.0, 2.0, 3.0), keyed_frame(10.0, 4.0, 5.0, 6.0)], false));
    tracks.push(track(vec![keyed_frame(0.0, 1.0, 2.0, 3.0), keyed_frame(10.0, 4.0, 5.0, 6.0)], true));
    for _ in 2..8 {
        tracks.push(track(vec![], false));
    }
    let bytes = canm(tracks, false).save();
    assert_eq!(&bytes[4..8], &[0x43, 0x4B, 0x41, 0x4E]);
    assert_eq!(&bytes[28..32], &be(0x60)[..]);
    // dual tangents: eight values appended at 0
    assert_eq!(&bytes[32..44], &[0, 0, 0, 8, 0, 0, 0, 0, 0, 0, 0, 0]);
    // single tangent: six values appended at 8
    assert_eq!(&bytes[44..56], &[0, 0, 0, 14, 0, 0, 0, 8, 0, 0, 0, 1]);
    // empty tracks match the empty run at 0
    assert_eq!(&bytes[56..68], &[0, 0, 0, 14, 0, 0, 0, 0, 0, 0, 0, 0]);
    let data = 32 + 96;
    assert_eq!(&bytes[data..data + 4], &be(64)[..]);
    let expected: Vec<f32> = vec![0.0, 1.0, 2.0, 3.0, 10.0, 4.0, 5.0, 6.0, 0.0, 1.0, 2.0, 10.0, 4.0, 5.0];
    for (j, v) in expected.iter().enumerate() {
        let at = data + 4 + 4 * j;
        assert_eq!(&bytes[at..at + 4], &be(bits(*v))[..]);
    }
}

#[test]
fn keyed_frames_decode_with_tangent_scope() {
    let mut b = vec![0x41, 0x4E, 0x44, 0x4F, 0x43, 0x4B, 0x41, 0x4E];
    for _ in 0..5 {
        b.extend(be(0));
    }
    b.extend(be(0x60));
    // first track: two frames, one tangent each; selector 1 means one tangent
    b.extend(be(2));
    b.extend(be(0));
    b.extend(be(1));
    // second track: two frames with two tangents, starting after the first run
    b.extend(be(2));
    b.extend(be(6));
    b.extend(be(0));
    for _ in 2..8 {
        b.extend(be(0));
        b.extend(be(0));
        b.extend(be(0));
    }
    b.extend(be(0));
    for v in [1.0f32, 2.0, 3.0, 4.0, 5.0, 6.0, 7.0, 8.0, 9.0, 10.0, 11.0, 12.0, 13.0, 14.0] {
        b.extend(be(bits(v)));
    }
    let c = CANM::load(&b).unwrap();
    assert!(!c.isfullframes);
    assert!(c.tracks[0].usesinglescope);
    assert_eq!(c.tracks[0].values, vec![keyed_frame(1.0, 2.0, 3.0, 0.0), keyed_frame(4.0, 5.0, 6.0, 0.0)]);
    assert!(!c.tracks[1].usesinglescope);
    assert_eq!(c.tracks[1].values, vec![keyed_frame(7.0, 8.0, 9.0, 10.0), keyed_frame(11.0, 12.0, 13.0, 14.0)]);
    for k in 2..8 {
        assert!(c.tracks[k].values.is_empty());
    }
}

#[test]
fn full_frames_flag_decides_tag_and_offset() {
    let mut c = fixture();
    c.header.frame_type = FrameType::CKAN;
    c.header.offset = 0x1234;
    let bytes = c.save();
    assert_eq!(&bytes[4..8], &[0x43, 0x41, 0x4E, 0x4D]);
    assert_eq!(&bytes[28..32], &be(0x40)[..]);
    assert_eq!(bytes, fixture_bytes());
}

#[test]
fn tracks_are_written_in_channel_order() {
    let order = TrackSelection::new();
    assert_eq!(order[0], TrackSelection::PositionX);
    assert_eq!(order[7], TrackSelection::FieldOfView);
    let tracks: Vec<Track> = (0..8).map(|k| track(vec![baked_frame(k as f32 + 0.5)], false)).collect();
    let c = canm(tracks, true);
    let bytes = c.save();
    for sel in order {
        let k = sel.index();
        assert_eq!(TrackSelection::from_index(k), Some(sel));
        let at = 32 + 8 * k;
        // each single-frame track appends one value, so its index is its position
        assert_eq!(&bytes[at + 4..at + 8], &be(k as u32)[..]);
        assert_eq!(&bytes[at..at + 4], &be(k as u32 + 1)[..]);
        let v = 96 + 4 + 4 * k;
        assert_eq!(&bytes[v..v + 4], &be(bits(k as f32 + 0.5))[..]);
        assert_eq!(c.track(sel).values[0].value, bits(k as f32 + 0.5));
    }
    assert_eq!(TrackSelection::from_index(8), None);
}

#[test]
fn truncated_input_is_rejected() {
    let b = fixture_bytes();
    // every prefix that cuts the header, a record or a payload fails
    for n in 0..b.len() {
        let r = CANM::load(&b[..n]);
        if n < 32 + 64 + 4 + 8 {
            assert_eq!(r.unwrap_err(), CodecError::Truncated, "length {}", n);
        }
    }
    assert!(!CodecError::Truncated.is_format_error());
}

#[test]
fn bad_magic_and_bad_tag_are_format_errors() {
    let mut b = fixture_bytes();
    b[0] = 0x42;
    let e = CANM::load(&b).unwrap_err();
    assert_eq!(e, CodecError::BadMagic(0x4F44_4E42));
    assert!(e.is_format_error());
    let mut b = fixture_bytes();
    b[4] = 0;
    assert_eq!(CANM::load(&b).unwrap_err(), CodecError::BadFrameType(0x4D4E_4100));
    assert_eq!(CANM::load(&b[..6]).unwrap_err(), CodecError::Truncated);
}

#[test]
fn payload_pointing_outside_is_rejected() {
    let mut b = fixture_bytes();
    // start index far past the end
    b[36..40].copy_from_slice(&be(1000));
    assert_eq!(CANM::load(&b).unwrap_err(), CodecError::Truncated);
    // a negative start index points before the file
    let mut b = fixture_bytes();
    b[36..40].copy_from_slice(&be((-100i32) as u32));
    assert_eq!(CANM::load(&b).unwrap_err(), CodecError::Truncated);
    // a huge count
    let mut b = fixture_bytes();
    b[32..36].copy_from_slice(&be(0x7FFF_FFFF));
    assert_eq!(CANM::load(&b).unwrap_err(), CodecError::Truncated);
    // a count of zero or less gives an empty track wherever it points
    let mut b = fixture_bytes();
    b[32..36].copy_from_slice(&be((-3i32) as u32));
    b[36..40].copy_from_slice(&be(1_000_000));
    assert!(CANM::load(&b).unwrap().tracks[0].values.is_empty());
}

#[test]
fn random_input_never_panics() {
    let mut state: u32 = 0x1234_5678;
    for round in 0..2000 {
        let len = (round % 200) as usize;
        let mut b = Vec::with_capacity(len);
        for _ in 0..len {
            state ^= state << 13;
            state ^= state >> 17;
            state ^= state << 5;
            b.push(state as u8);
        }
        if round % 2 == 0 && len >= 8 {
            b[..8].copy_from_slice(&fixture_bytes()[..8]);
        }
        let _ = CANM::load(&b);
        let _ = CAMN::load(&b);
    }
}

#[test]
fn camn_family_reads_and_writes_the_same_layout() {
    let b = fixture_bytes();
    let c = CAMN::load(&b).unwrap();
    assert_eq!(c.header.magic, CAMNMagic::MAGIC);
    assert_eq!(CAMNMagic::MAGIC.value(), CANM_MAGIC);
    assert!(c.isfullframes);
    assert!(c.is_encodable());
    assert_eq!(c.save(), b);
    let h: CAMNHeader = c.header;
    assert_eq!(CAMNHeader::from_fields(h.fields()), h);
}

#[test]
fn encodable_needs_eight_tracks() {
    let mut c = fixture();
    c.tracks.pop();
    assert!(!c.is_encodable());
}

#[test]
fn frame_new_is_zero() {
    assert_eq!(Frame::new(), Frame { frameid: 0, value: 0, inslope: 0, outslope: 0 });
    assert_eq!(FrameType::from_tag(0x4E41_4B43), Some(FrameType::CKAN));
    assert_eq!(FrameType::CANM.tag(), 0x4D4E_4143);
    assert_eq!(FrameType::from_tag(7), None);
}

#[test]
fn index_bits_match_float_conversion() {
    let mut samples: Vec<u32> = (0..5000).collect();
    for e in 20..31 {
        let p = 1u32 << e;
        for d in 0..9 {
            samples.push(p + d);
            samples.push(p - d);
            samples.push(p + (p >> 1) + d);
            samples.push(p + (p >> 1) - d);
        }
    }
    samples.push(16_777_217);
    samples.push(16_777_219);
    samples.push(33_554_435);
    samples.push(0x7FFF_FFFF);
    samples.push(0x7FFF_FFC0);
    samples.push(0x7FFF_FF80);
    for n in samples {
        if n <= i32::MAX as u32 {
            assert_eq!(index_to_f32_bits(n), (n as f32).to_bits(), "n = {}", n);
        }
    }
}

#[test]
fn pool_first_match_wins_and_appends_on_miss() {
    let mut p = FramePool::new();
    assert_eq!(p.register(&[]), 0);
    assert_eq!(p.len(), 0);
    assert_eq!(p.register(&[1, 2, 3]), 0);
    assert_eq!(p.register(&[2, 3]), 1);
    assert_eq!(p.register(&[3, 4]), 3);
    assert_eq!(p.values(), &vec![1, 2, 3, 3, 4]);
    assert_eq!(p.register(&[3]), 2);
    assert_eq!(p.register(&[]), 0);
    assert_eq!(p.len(), 5);
}
