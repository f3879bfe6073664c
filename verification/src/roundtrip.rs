//! Decoding inverts encoding.
//!
//! The central law of the codec: a record that the encoder accepts decodes
//! back to the very same record, channel for channel and bone for bone. The
//! encoder's count field already accounts for the mandatory trailing
//! terminator channel, so nothing is added or lost on the way round.

use vstd::prelude::*;

use crate::ChannelModel;
use crate::MotionModel;
use crate::bytes::le16;
use crate::bytes::le16_bytes;
use crate::bytes::le32;
use crate::bytes::le32_bytes;
use crate::bytes::lemma_le16_roundtrip;
use crate::bytes::lemma_le32_roundtrip;
use crate::read::parse_bones;
use crate::read::parse_channel;
use crate::read::parse_channels;
use crate::read::spec_parse;
use crate::tags::channel_set_type;
use crate::tags::lemma_unpack_pack;
use crate::tags::spec_pack_tags;
use crate::tags::spec_unpack_tags;
use crate::write::bones_bytes;
use crate::write::chan_key_count;
use crate::write::channel_bytes;
use crate::write::channel_size;
use crate::write::frames_lin_bytes;
use crate::write::frames_smooth_bytes;
use crate::write::keyed_pad;
use crate::write::lemma_channel_bytes_len;
use crate::write::lemma_channel_size_even;
use crate::write::lemma_record_bytes_len;
use crate::write::lemma_set_off_even;
use crate::write::payload_bytes;
use crate::write::record_bones_off;
use crate::write::record_bytes;
use crate::write::record_set_off;
use crate::write::record_tag_bytes;
use crate::write::sets_max_frame;
use crate::write::spec_write_err;
use crate::write::values_lin_bytes;
use crate::write::values_smooth_bytes;
use crate::bytes::zeros;

verus! {

/// How many zero values a bone sequence holds.
pub open spec fn zero_count(bones: Seq<usize>) -> int
    decreases bones.len(),
{
    if bones.len() == 0 {
        0int
    } else {
        (if bones[0] == 0 {
            1int
        } else {
            0int
        }) + zero_count(bones.drop_first())
    }
}

/// A record survives the round trip when the encoder accepts it and its
/// bone array holds at most one zero index: the decoder takes the second
/// zero it reads for the array's terminator.
pub open spec fn roundtrip_wf(m: MotionModel) -> bool {
    &&& spec_write_err(m) is None
    &&& zero_count(m.bones) <= 1
}

proof fn lemma_zero_count_nonneg(bones: Seq<usize>)
    ensures
        zero_count(bones) >= 0,
    decreases bones.len(),
{
    if bones.len() > 0 {
        lemma_zero_count_nonneg(bones.drop_first());
    }
}

proof fn lemma_div2(k: int)
    requires
        k >= 0,
    ensures
        (2 * k) / 2 == k,
        (2 * k) % 2 == 0,
        (2 * k + 1) / 2 == k,
        (2 * k + 1) % 2 == 1,
{
    assert((2 * k) / 2 == k && (2 * k) % 2 == 0 && (2 * k + 1) / 2 == k && (2 * k + 1) % 2 == 1)
        by (nonlinear_arith)
        requires
            k >= 0,
    ;
}

proof fn lemma_div4(k: int, r: int)
    requires
        k >= 0,
        0 <= r < 4,
    ensures
        (4 * k + r) / 4 == k,
        (4 * k + r) % 4 == r,
{
    assert((4 * k + r) / 4 == k && (4 * k + r) % 4 == r) by (nonlinear_arith)
        requires
            k >= 0,
            0 <= r < 4,
    ;
}

proof fn lemma_div8(k: int, r: int)
    requires
        k >= 0,
        0 <= r < 8,
    ensures
        (8 * k + r) / 8 == k,
        (8 * k + r) % 8 == r,
{
    assert((8 * k + r) / 8 == k && (8 * k + r) % 8 == r) by (nonlinear_arith)
        requires
            k >= 0,
            0 <= r < 8,
    ;
}

/// The byte-wise tag reader looks only at the bytes that hold its tags.
proof fn lemma_unpack_prefix(s1: Seq<u8>, s2: Seq<u8>, n: nat)
    requires
        (n + 3) / 4 <= s1.len(),
        (n + 3) / 4 <= s2.len(),
        forall|j: int| 0 <= j < (n + 3) / 4 ==> s1[j] == s2[j],
    ensures
        spec_unpack_tags(s1, n) == spec_unpack_tags(s2, n),
{
    let a = spec_unpack_tags(s1, n).unwrap();
    let b = spec_unpack_tags(s2, n).unwrap();
    assert forall|i: int| 0 <= i < n implies a[i] == b[i] by {
        assert(i == 4 * (i / 4) + i % 4);
        assert(i / 4 < (n + 3) / 4);
        assert(s1[i / 4] == s2[i / 4]);
    }
    assert(a =~= b);
}

/// Parsing one channel at the position where its bytes were laid down
/// recovers the channel and stops exactly past it.
proof fn lemma_parse_channel_inverse(bytes: Seq<u8>, c: ChannelModel, pos: int)
    requires
        chan_key_count(c) <= 0xFFFF,
        pos >= 0,
        pos + channel_size(c, pos) <= bytes.len(),
        forall|j: int|
            0 <= j < channel_size(c, pos) ==> bytes[pos + j] == channel_bytes(c, pos)[j],
    ensures
        parse_channel(bytes, pos, channel_set_type(c)) == Some((c, pos + channel_size(c, pos))),
{
    lemma_channel_bytes_len(c, pos);
    match c {
        ChannelModel::Empty => {},
        ChannelModel::Pose(v) => {
            lemma_le32_roundtrip(v);
            assert(bytes[pos] == le32_bytes(v)[0]);
            assert(bytes[pos + 1] == le32_bytes(v)[1]);
            assert(bytes[pos + 2] == le32_bytes(v)[2]);
            assert(bytes[pos + 3] == le32_bytes(v)[3]);
        },
        ChannelModel::Linear(ks) => {
            let cb = channel_bytes(c, pos);
            let cnt = ks.len() as u16;
            let n = ks.len() as int;
            lemma_le16_roundtrip(cnt);
            assert(cb[0] == le16_bytes(cnt)[0]);
            assert(cb[1] == le16_bytes(cnt)[1]);
            assert(le16(bytes[pos], bytes[pos + 1]) == cnt);
            assert(cnt as int == n);
            let fpos = pos + 2;
            let vpos = fpos + 2 * n + (fpos + 2 * n) % 4;
            assert(keyed_pad(pos, n) == (fpos + 2 * n) % 4);
            let parsed = parse_channel(bytes, pos, channel_set_type(c)).unwrap().0;
            let pks = parsed->Linear_0;
            assert forall|k: int| 0 <= k < n implies pks[k] == ks[k] by {
                lemma_div2(k);
                assert(cb[2 + 2 * k] == frames_lin_bytes(ks)[2 * k]);
                assert(cb[2 + 2 * k + 1] == frames_lin_bytes(ks)[2 * k + 1]);
                assert(frames_lin_bytes(ks)[2 * k] == le16_bytes(ks[k].frame)[0]);
                assert(frames_lin_bytes(ks)[2 * k + 1] == le16_bytes(ks[k].frame)[1]);
                assert(bytes[fpos + 2 * k] == cb[2 + 2 * k]);
                assert(bytes[fpos + 2 * k + 1] == cb[2 + 2 * k + 1]);
                lemma_le16_roundtrip(ks[k].frame);
                let voff = 2 + 2 * n + keyed_pad(pos, n);
                assert(voff + 4 * n == channel_size(c, pos));
                lemma_div4(k, 0);
                lemma_div4(k, 1);
                lemma_div4(k, 2);
                lemma_div4(k, 3);
                assert(cb[voff + 4 * k] == values_lin_bytes(ks)[4 * k]);
                assert(cb[voff + 4 * k + 1] == values_lin_bytes(ks)[4 * k + 1]);
                assert(cb[voff + 4 * k + 2] == values_lin_bytes(ks)[4 * k + 2]);
                assert(cb[voff + 4 * k + 3] == values_lin_bytes(ks)[4 * k + 3]);
                assert(values_lin_bytes(ks)[4 * k] == le32_bytes(ks[k].value)[0]);
                assert(values_lin_bytes(ks)[4 * k + 1] == le32_bytes(ks[k].value)[1]);
                assert(values_lin_bytes(ks)[4 * k + 2] == le32_bytes(ks[k].value)[2]);
                assert(values_lin_bytes(ks)[4 * k + 3] == le32_bytes(ks[k].value)[3]);
                assert(vpos + 4 * k == pos + (voff + 4 * k));
                assert(bytes[vpos + 4 * k] == cb[voff + 4 * k]);
                assert(bytes[vpos + 4 * k + 1] == cb[voff + 4 * k + 1]);
                assert(bytes[vpos + 4 * k + 2] == cb[voff + 4 * k + 2]);
                assert(bytes[vpos + 4 * k + 3] == cb[voff + 4 * k + 3]);
                lemma_le32_roundtrip(ks[k].value);
            }
            assert(pks =~= ks);
        },
        ChannelModel::Smooth(ks) => {
            let cb = channel_bytes(c, pos);
            let cnt = ks.len() as u16;
            let n = ks.len() as int;
            lemma_le16_roundtrip(cnt);
            assert(cb[0] == le16_bytes(cnt)[0]);
            assert(cb[1] == le16_bytes(cnt)[1]);
            assert(le16(bytes[pos], bytes[pos + 1]) == cnt);
            assert(cnt as int == n);
            let fpos = pos + 2;
            let vpos = fpos + 2 * n + (fpos + 2 * n) % 4;
            assert(keyed_pad(pos, n) == (fpos + 2 * n) % 4);
            let parsed = parse_channel(bytes, pos, channel_set_type(c)).unwrap().0;
            let pks = parsed->Smooth_0;
            assert forall|k: int| 0 <= k < n implies pks[k] == ks[k] by {
                lemma_div2(k);
                assert(cb[2 + 2 * k] == frames_smooth_bytes(ks)[2 * k]);
                assert(cb[2 + 2 * k + 1] == frames_smooth_bytes(ks)[2 * k + 1]);
                assert(frames_smooth_bytes(ks)[2 * k] == le16_bytes(ks[k].keyframe.frame)[0]);
                assert(frames_smooth_bytes(ks)[2 * k + 1] == le16_bytes(ks[k].keyframe.frame)[1]);
                assert(bytes[fpos + 2 * k] == cb[2 + 2 * k]);
                assert(bytes[fpos + 2 * k + 1] == cb[2 + 2 * k + 1]);
                lemma_le16_roundtrip(ks[k].keyframe.frame);
                let voff = 2 + 2 * n + keyed_pad(pos, n);
                assert(voff + 8 * n == channel_size(c, pos));
                lemma_div8(k, 0);
                lemma_div8(k, 1);
                lemma_div8(k, 2);
                lemma_div8(k, 3);
                lemma_div8(k, 4);
                lemma_div8(k, 5);
                lemma_div8(k, 6);
                lemma_div8(k, 7);
                assert(vpos + 8 * k == pos + (voff + 8 * k));
                assert(bytes[vpos + 8 * k] == cb[voff + 8 * k]);
                assert(bytes[vpos + 8 * k + 1] == cb[voff + 8 * k + 1]);
                assert(bytes[vpos + 8 * k + 2] == cb[voff + 8 * k + 2]);
                assert(bytes[vpos + 8 * k + 3] == cb[voff + 8 * k + 3]);
                assert(bytes[vpos + 8 * k + 4] == cb[voff + 8 * k + 4]);
                assert(bytes[vpos + 8 * k + 5] == cb[voff + 8 * k + 5]);
                assert(bytes[vpos + 8 * k + 6] == cb[voff + 8 * k + 6]);
                assert(bytes[vpos + 8 * k + 7] == cb[voff + 8 * k + 7]);
                assert(cb[voff + 8 * k] == values_smooth_bytes(ks)[8 * k]);
                assert(cb[voff + 8 * k + 1] == values_smooth_bytes(ks)[8 * k + 1]);
                assert(cb[voff + 8 * k + 2] == values_smooth_bytes(ks)[8 * k + 2]);
                assert(cb[voff + 8 * k + 3] == values_smooth_bytes(ks)[8 * k + 3]);
                assert(cb[voff + 8 * k + 4] == values_smooth_bytes(ks)[8 * k + 4]);
                assert(cb[voff + 8 * k + 5] == values_smooth_bytes(ks)[8 * k + 5]);
                assert(cb[voff + 8 * k + 6] == values_smooth_bytes(ks)[8 * k + 6]);
                assert(cb[voff + 8 * k + 7] == values_smooth_bytes(ks)[8 * k + 7]);
                assert(values_smooth_bytes(ks)[8 * k] == le32_bytes(ks[k].keyframe.value)[0]);
                assert(values_smooth_bytes(ks)[8 * k + 1] == le32_bytes(ks[k].keyframe.value)[1]);
                assert(values_smooth_bytes(ks)[8 * k + 2] == le32_bytes(ks[k].keyframe.value)[2]);
                assert(values_smooth_bytes(ks)[8 * k + 3] == le32_bytes(ks[k].keyframe.value)[3]);
                assert(values_smooth_bytes(ks)[8 * k + 4] == le32_bytes(ks[k].interpolation)[0]);
                assert(values_smooth_bytes(ks)[8 * k + 5] == le32_bytes(ks[k].interpolation)[1]);
                assert(values_smooth_bytes(ks)[8 * k + 6] == le32_bytes(ks[k].interpolation)[2]);
                assert(values_smooth_bytes(ks)[8 * k + 7] == le32_bytes(ks[k].interpolation)[3]);
                lemma_le32_roundtrip(ks[k].keyframe.value);
                lemma_le32_roundtrip(ks[k].interpolation);
            }
            assert(pks =~= ks);
        },
    }
}

/// Parsing the payload section at the position where it was laid down
/// recovers every channel and stops at the section's end.
proof fn lemma_parse_payload(bytes: Seq<u8>, sets: Seq<ChannelModel>, pos: int)
    requires
        forall|i: int| 0 <= i < sets.len() ==> chan_key_count(#[trigger] sets[i]) <= 0xFFFF,
        pos >= 0,
        pos % 2 == 0,
        pos + payload_bytes(sets, pos).len() <= bytes.len(),
        forall|j: int|
            0 <= j < payload_bytes(sets, pos).len() ==> bytes[pos + j] == payload_bytes(
                sets,
                pos,
            )[j],
    ensures
        parse_channels(bytes, pos, sets.map_values(|c: ChannelModel| channel_set_type(c)))
            == Some((sets, pos + payload_bytes(sets, pos).len())),
    decreases sets.len(),
{
    let tags = sets.map_values(|c: ChannelModel| channel_set_type(c));
    if sets.len() == 0 {
        assert(sets =~= Seq::<ChannelModel>::empty());
    } else {
        let c0 = sets[0];
        let sz0 = channel_size(c0, pos);
        lemma_channel_bytes_len(c0, pos);
        assert forall|j: int| 0 <= j < sz0 implies bytes[pos + j] == channel_bytes(c0, pos)[j] by {
            assert(payload_bytes(sets, pos)[j] == channel_bytes(c0, pos)[j]);
        }
        lemma_parse_channel_inverse(bytes, c0, pos);
        assert(tags[0] == channel_set_type(c0));
        let pos1 = pos + sz0;
        lemma_channel_size_even(c0, pos);
        let rest = sets.drop_first();
        let rest_pb = payload_bytes(rest, pos1);
        assert(payload_bytes(sets, pos) == channel_bytes(c0, pos) + rest_pb);
        assert forall|j: int| 0 <= j < rest_pb.len() implies bytes[pos1 + j] == rest_pb[j] by {
            assert(payload_bytes(sets, pos)[sz0 + j] == rest_pb[j]);
            assert(bytes[pos + (sz0 + j)] == payload_bytes(sets, pos)[sz0 + j]);
            assert(pos + (sz0 + j) == pos1 + j);
        }
        assert(forall|i: int|
            0 <= i < rest.len() ==> chan_key_count(#[trigger] rest[i]) <= 0xFFFF);
        lemma_parse_payload(bytes, rest, pos1);
        assert(tags.drop_first() =~= rest.map_values(|c: ChannelModel| channel_set_type(c)));
        assert(parse_channels(bytes, pos1, tags.drop_first()) == Some(
            (rest, pos1 + rest_pb.len()),
        ));
        assert(seq![c0] + rest =~= sets);
        assert(pos1 + rest_pb.len() == pos + payload_bytes(sets, pos).len());
    }
}

/// Parsing the bone array at the position where it was laid down, with the
/// buffer ending at the array's end, recovers every bone index.
proof fn lemma_parse_bones_exact(bytes: Seq<u8>, bones: Seq<usize>, pos: int, seen: bool)
    requires
        pos >= 0,
        pos + 2 * bones.len() == bytes.len(),
        forall|i: int| 0 <= i < bones.len() ==> #[trigger] bones[i] <= 0xFFFF,
        forall|j: int| 0 <= j < 2 * bones.len() ==> bytes[pos + j] == bones_bytes(bones)[j],
        zero_count(bones) + (if seen {
            1int
        } else {
            0int
        }) <= 1,
    ensures
        parse_bones(bytes, pos, seen) == bones,
    decreases bones.len(),
{
    if bones.len() == 0 {
        assert(parse_bones(bytes, pos, seen) =~= Seq::<usize>::empty());
        assert(bones =~= Seq::<usize>::empty());
    } else {
        let b0 = bones[0];
        let w = b0 as u16;
        lemma_le16_roundtrip(w);
        assert(bones_bytes(bones)[0] == le16_bytes(w)[0]);
        assert(bones_bytes(bones)[1] == le16_bytes(w)[1]);
        assert(bytes[pos + 0] == bones_bytes(bones)[0]);
        assert(bytes[pos + 1] == bones_bytes(bones)[1]);
        assert(bytes[pos] == le16_bytes(w)[0]);
        let v = le16(bytes[pos], bytes[pos + 1]);
        assert(v == w);
        let rest = bones.drop_first();
        assert forall|j: int| 0 <= j < 2 * rest.len() implies bytes[pos + 2 + j] == bones_bytes(
            rest,
        )[j] by {
            assert((2 + j) / 2 == 1 + j / 2 && (2 + j) % 2 == j % 2) by (nonlinear_arith)
                requires
                    j >= 0,
            ;
            assert(bytes[pos + (2 + j)] == bones_bytes(bones)[2 + j]);
            assert(bones_bytes(bones)[2 + j] == le16_bytes(bones[1 + j / 2] as u16)[j % 2]);
            assert(bones[1 + j / 2] == rest[j / 2]);
            assert(bones_bytes(rest)[j] == le16_bytes(rest[j / 2] as u16)[j % 2]);
            assert(pos + (2 + j) == pos + 2 + j);
        }
        assert(zero_count(bones) == (if b0 == 0 {
            1int
        } else {
            0int
        }) + zero_count(rest));
        if v == 0 && seen {
            assert(b0 == 0);
            lemma_zero_count_nonneg(rest);
            assert(false);
        }
        lemma_parse_bones_exact(bytes, rest, pos + 2, seen || b0 == 0);
        assert(parse_bones(bytes, pos, seen) == seq![v as usize] + parse_bones(
            bytes,
            pos + 2,
            seen || v == 0,
        ));
        assert(seq![b0] + rest =~= bones);
    }
}

/// Decoding inverts encoding: a record the encoder accepts, whose bone
/// array holds at most one zero index, decodes from its own encoding back
/// to itself exactly — every channel, every keyframe and every bone index.
///
/// The encoder's additively built count field already carries the trailing
/// terminator channel, so the decoder recovers precisely the channels that
/// were encoded and the round trip changes nothing.
pub proof fn lemma_decode_encode_roundtrip(m: MotionModel)
    requires
        roundtrip_wf(m),
    ensures
        spec_parse(record_bytes(m)) == Some(m),
{
    let bytes = record_bytes(m);
    lemma_record_bytes_len(m);
    let n = m.sets.len() as int;
    let tb = record_tag_bytes(m.sets);
    let set_off = record_set_off(m.sets);
    let bones_off = record_bones_off(m.sets);
    let cur = 36 + tb.len() as int;
    let payload = payload_bytes(m.sets, set_off);
    let kb = bones_bytes(m.bones);
    let count_field = (m.sets.len() + 1 + 0x3FFF) as u16;
    let maxk = (sets_max_frame(m.sets) + 1) as u16;
    let p1 = le32_bytes(32);
    let p2 = le32_bytes(36);
    let p3 = le32_bytes(set_off as u32);
    let p4 = le32_bytes(bones_off as u32);
    let p5 = zeros(16);
    let p6 = le16_bytes(count_field);
    let p7 = le16_bytes(maxk);
    let p8 = zeros((cur % 6) as nat);
    assert(bytes == p1 + p2 + p3 + p4 + p5 + p6 + p7 + tb + p8 + payload + kb);
    assert(0 <= set_off && set_off <= bones_off && bones_off + 2 * m.bones.len() == bytes.len());
    assert(bytes.len() <= 0xFFFF_FFFF);
    assert(set_off == 36 + tb.len() + cur % 6);
    // The four offset words.
    lemma_le32_roundtrip(32);
    lemma_le32_roundtrip(36);
    lemma_le32_roundtrip(set_off as u32);
    lemma_le32_roundtrip(bones_off as u32);
    assert(bytes[0] == p1[0] && bytes[1] == p1[1] && bytes[2] == p1[2] && bytes[3] == p1[3]);
    assert(bytes[4] == p2[0] && bytes[5] == p2[1] && bytes[6] == p2[2] && bytes[7] == p2[3]);
    assert(bytes[8] == p3[0] && bytes[9] == p3[1] && bytes[10] == p3[2] && bytes[11] == p3[3]);
    assert(bytes[12] == p4[0] && bytes[13] == p4[1] && bytes[14] == p4[2] && bytes[15] == p4[3]);
    let off1 = le32(bytes[0], bytes[1], bytes[2], bytes[3]) as int;
    let off2 = le32(bytes[4], bytes[5], bytes[6], bytes[7]) as int;
    let ks_off = le32(bytes[8], bytes[9], bytes[10], bytes[11]) as int;
    let off4 = le32(bytes[12], bytes[13], bytes[14], bytes[15]) as int;
    assert(off1 == 32 && off2 == 36);
    assert(ks_off == set_off && off4 == bones_off);
    // The count field, masked of its version marker, is the channel count.
    lemma_le16_roundtrip(count_field);
    assert(bytes[32] == p6[0] && bytes[33] == p6[1]);
    assert(le16(bytes[32], bytes[33]) == count_field);
    assert(count_field == n + 0x4000);
    assert((count_field % 0x4000) as nat == n as nat) by (nonlinear_arith)
        requires
            count_field == n + 0x4000,
            0 <= n < 0x4000,
    ;
    // The tag stream reads back as the channels' tags.
    let gtags = m.sets.map_values(|c: ChannelModel| channel_set_type(c));
    assert(gtags.len() == n && tb == spec_pack_tags(gtags) && tb.len() == (n + 3) / 4);
    lemma_unpack_pack(gtags);
    assert forall|j: int| 0 <= j < (n as nat + 3) / 4 implies bytes.skip(36)[j] == tb[j] by {
        assert(bytes.skip(36)[j] == bytes[36 + j]);
        assert(bytes[36 + j] == tb[j]);
    }
    lemma_unpack_prefix(bytes.skip(36), tb, n as nat);
    assert(spec_unpack_tags(bytes.skip(36), n as nat) == Some(gtags));
    // The payload decodes to the channels.
    lemma_set_off_even(m.sets);
    assert(forall|i: int| 0 <= i < n ==> chan_key_count(#[trigger] m.sets[i]) <= 0xFFFF);
    assert forall|j: int| 0 <= j < payload.len() implies bytes[set_off + j] == payload[j] by {
        assert(bytes[(36 + tb.len() + cur % 6) + j] == payload[j]);
        assert(set_off + j == (36 + tb.len() + cur % 6) + j);
    }
    lemma_parse_payload(bytes, m.sets, set_off);
    assert(parse_channels(bytes, set_off, gtags) == Some((m.sets, bones_off)));
    // The bone array decodes to the bone indices.
    assert(forall|i: int| 0 <= i < m.bones.len() ==> #[trigger] m.bones[i] <= 0xFFFF);
    assert forall|j: int| 0 <= j < 2 * m.bones.len() implies bytes[bones_off + j] == kb[j] by {
        assert(bytes[(set_off + payload.len()) + j] == kb[j]);
        assert(bones_off + j == (set_off + payload.len()) + j);
    }
    lemma_parse_bones_exact(bytes, m.bones, bones_off, false);
    assert(m == (MotionModel { sets: m.sets, bones: m.bones }));
    assert(spec_parse(bytes) == Some(m));
}

} // verus!
