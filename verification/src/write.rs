//! The record encoder.
//!
//! A record is laid out as: a 32-byte preamble (two format constants, the
//! payload offset, the bone-array offset, sixteen reserved zero bytes), the
//! 16-bit channel-count field built additively (`count + 1 + 0x3FFF`), the
//! 16-bit largest-frame-index-plus-one field, the packed tag bytes, a legacy
//! padding run of `position % 6` zero bytes, the channel payloads, and the
//! 16-bit bone indices. The two offsets depend on the variable-length body,
//! so the encoder measures the body before the preamble is emitted; the
//! byte-level specification below fixes the layout exactly.

use vstd::prelude::*;

use crate::ChannelModel;
use crate::FrameData;
use crate::InterpKeyframe;
use crate::Keyframe;
use crate::Motion;
use crate::MotionModel;
use crate::bytes::le16_bytes;
use crate::bytes::le32_bytes;
use crate::bytes::push_u16;
use crate::bytes::push_u32;
use crate::bytes::push_zeros;
use crate::bytes::zeros;
use crate::tags::SetType;
use crate::tags::channel_set_type;
use crate::tags::pack_tags;
use crate::tags::spec_pack_tags;

verus! {

/// Why a record could not be encoded.
#[derive(Debug, Clone, Copy, PartialEq, Eq, Structural)]
pub enum WriteError {
    /// The channel count would collide with the version marker in the
    /// 16-bit count field.
    TooManyChannels,
    /// A keyed channel holds more keyframes than its 16-bit count field.
    KeyCountOverflow,
    /// The largest frame index leaves no room for the plus-one encoding of
    /// the 16-bit largest-frame field.
    FrameIndexOverflow,
    /// A bone index does not fit its 16-bit slot.
    BoneIndexOverflow,
    /// The record would outgrow its 32-bit offset fields.
    RecordTooLarge,
}

/// The little-endian frame-index bytes of a linear keyframe list.
pub open spec fn frames_lin_bytes(ks: Seq<Keyframe>) -> Seq<u8> {
    Seq::new(2 * ks.len(), |j: int| le16_bytes(ks[j / 2].frame)[j % 2])
}

/// The little-endian value bytes of a linear keyframe list.
pub open spec fn values_lin_bytes(ks: Seq<Keyframe>) -> Seq<u8> {
    Seq::new(4 * ks.len(), |j: int| le32_bytes(ks[j / 4].value)[j % 4])
}

/// The little-endian frame-index bytes of a smooth keyframe list.
pub open spec fn frames_smooth_bytes(ks: Seq<InterpKeyframe>) -> Seq<u8> {
    Seq::new(2 * ks.len(), |j: int| le16_bytes(ks[j / 2].keyframe.frame)[j % 2])
}

/// The little-endian value and tangent bytes of a smooth keyframe list:
/// eight bytes per key, value first.
pub open spec fn values_smooth_bytes(ks: Seq<InterpKeyframe>) -> Seq<u8> {
    Seq::new(
        8 * ks.len(),
        |j: int|
            if j % 8 < 4 {
                le32_bytes(ks[j / 8].keyframe.value)[j % 8]
            } else {
                le32_bytes(ks[j / 8].interpolation)[j % 8 - 4]
            },
    )
}

/// The length of the legacy alignment run inside a keyed channel that starts
/// at absolute position `pos`: the pad follows the count field and `count`
/// frame indices, and its length is the absolute position taken modulo 4.
pub open spec fn keyed_pad(pos: int, count: int) -> int {
    (pos + 2 + 2 * count) % 4
}

/// The payload bytes of one channel starting at absolute position `pos`.
pub open spec fn channel_bytes(c: ChannelModel, pos: int) -> Seq<u8> {
    match c {
        ChannelModel::Empty => Seq::empty(),
        ChannelModel::Pose(v) => le32_bytes(v),
        ChannelModel::Linear(ks) => le16_bytes(ks.len() as u16) + frames_lin_bytes(ks) + zeros(
            keyed_pad(pos, ks.len() as int) as nat,
        ) + values_lin_bytes(ks),
        ChannelModel::Smooth(ks) => le16_bytes(ks.len() as u16) + frames_smooth_bytes(ks) + zeros(
            keyed_pad(pos, ks.len() as int) as nat,
        ) + values_smooth_bytes(ks),
    }
}

/// The byte length of one channel's payload.
pub open spec fn channel_size(c: ChannelModel, pos: int) -> int {
    match c {
        ChannelModel::Empty => 0,
        ChannelModel::Pose(_) => 4,
        ChannelModel::Linear(ks) => 2 + 2 * ks.len() + keyed_pad(pos, ks.len() as int) + 4
            * ks.len(),
        ChannelModel::Smooth(ks) => 2 + 2 * ks.len() + keyed_pad(pos, ks.len() as int) + 8
            * ks.len(),
    }
}

pub proof fn lemma_channel_bytes_len(c: ChannelModel, pos: int)
    ensures
        channel_bytes(c, pos).len() == channel_size(c, pos),
{
}

/// The payload section: every channel in order, each at the position the
/// previous ones left off.
pub open spec fn payload_bytes(sets: Seq<ChannelModel>, pos: int) -> Seq<u8>
    decreases sets.len(),
{
    if sets.len() == 0 {
        Seq::empty()
    } else {
        channel_bytes(sets[0], pos) + payload_bytes(
            sets.drop_first(),
            pos + channel_size(sets[0], pos),
        )
    }
}

/// Extending the encoded prefix by one channel appends that channel's bytes.
pub proof fn lemma_payload_snoc(sets: Seq<ChannelModel>, pos: int, i: int)
    requires
        0 <= i < sets.len(),
    ensures
        payload_bytes(sets.take(i + 1), pos) == payload_bytes(sets.take(i), pos) + channel_bytes(
            sets[i],
            pos + payload_bytes(sets.take(i), pos).len(),
        ),
    decreases i,
{
    if i == 0 {
        assert(sets.take(0) =~= Seq::<ChannelModel>::empty());
        let one = sets.take(1);
        assert(one.len() == 1 && one[0] == sets[0]);
        assert(one.drop_first() =~= Seq::<ChannelModel>::empty());
        let cb = channel_bytes(sets[0], pos);
        assert(payload_bytes(one, pos) == cb + payload_bytes(
            one.drop_first(),
            pos + channel_size(sets[0], pos),
        ));
        assert(cb + Seq::<u8>::empty() =~= cb);
        assert(Seq::<u8>::empty() + cb =~= cb);
    } else {
        let rest = sets.drop_first();
        let cb0 = channel_bytes(sets[0], pos);
        let pos1 = pos + channel_size(sets[0], pos);
        lemma_channel_bytes_len(sets[0], pos);
        lemma_payload_snoc(rest, pos1, i - 1);
        assert(sets.take(i + 1).drop_first() =~= rest.take(i));
        assert(sets.take(i).drop_first() =~= rest.take(i - 1));
        assert(sets.take(i + 1)[0] == sets[0]);
        assert(sets.take(i)[0] == sets[0]);
        assert(rest[i - 1] == sets[i]);
        // Unfold both sides one channel deep.
        assert(payload_bytes(sets.take(i + 1), pos) == cb0 + payload_bytes(rest.take(i), pos1));
        assert(payload_bytes(sets.take(i), pos) == cb0 + payload_bytes(rest.take(i - 1), pos1));
        let a = payload_bytes(rest.take(i - 1), pos1);
        let b = channel_bytes(sets[i], pos1 + a.len());
        assert(payload_bytes(rest.take(i), pos1) == a + b);
        assert(pos + (cb0 + a).len() == pos1 + a.len());
        assert(cb0 + (a + b) =~= (cb0 + a) + b);
    }
}

/// The 16-bit bone-index bytes of the bone array.
pub open spec fn bones_bytes(bones: Seq<usize>) -> Seq<u8> {
    Seq::new(2 * bones.len(), |j: int| le16_bytes(bones[j / 2] as u16)[j % 2])
}

/// The largest frame index in a linear keyframe list, or 0.
pub open spec fn lin_max_frame(ks: Seq<Keyframe>) -> int
    decreases ks.len(),
{
    if ks.len() == 0 {
        0
    } else {
        let rest = lin_max_frame(ks.drop_last());
        if ks.last().frame > rest {
            ks.last().frame as int
        } else {
            rest
        }
    }
}

/// The largest frame index in a smooth keyframe list, or 0.
pub open spec fn smooth_max_frame(ks: Seq<InterpKeyframe>) -> int
    decreases ks.len(),
{
    if ks.len() == 0 {
        0
    } else {
        let rest = smooth_max_frame(ks.drop_last());
        if ks.last().keyframe.frame > rest {
            ks.last().keyframe.frame as int
        } else {
            rest
        }
    }
}

/// The largest frame index in one channel, or 0.
pub open spec fn chan_max_frame(c: ChannelModel) -> int {
    match c {
        ChannelModel::Empty => 0,
        ChannelModel::Pose(_) => 0,
        ChannelModel::Linear(ks) => lin_max_frame(ks),
        ChannelModel::Smooth(ks) => smooth_max_frame(ks),
    }
}

/// The largest frame index over all channels, or 0.
pub open spec fn sets_max_frame(sets: Seq<ChannelModel>) -> int
    decreases sets.len(),
{
    if sets.len() == 0 {
        0
    } else {
        let rest = sets_max_frame(sets.drop_last());
        if chan_max_frame(sets.last()) > rest {
            chan_max_frame(sets.last())
        } else {
            rest
        }
    }
}

/// The keyframe count of a channel: the number a keyed channel stores in its
/// 16-bit count field, 0 for the others.
pub open spec fn chan_key_count(c: ChannelModel) -> int {
    match c {
        ChannelModel::Empty => 0,
        ChannelModel::Pose(_) => 0,
        ChannelModel::Linear(ks) => ks.len() as int,
        ChannelModel::Smooth(ks) => ks.len() as int,
    }
}

/// The packed tag bytes of a record's channels.
pub open spec fn record_tag_bytes(sets: Seq<ChannelModel>) -> Seq<u8> {
    spec_pack_tags(sets.map_values(|c: ChannelModel| channel_set_type(c)))
}

/// The absolute position of the payload section: the tag bytes end at
/// `36 + ceil(n / 4)` and the legacy rule pads by that position modulo 6.
pub open spec fn record_set_off(sets: Seq<ChannelModel>) -> int {
    let cur = 36 + record_tag_bytes(sets).len() as int;
    cur + cur % 6
}

/// The absolute position of the bone-index array.
pub open spec fn record_bones_off(sets: Seq<ChannelModel>) -> int {
    record_set_off(sets) + payload_bytes(sets, record_set_off(sets)).len()
}

/// The total byte length of an encoded record.
pub open spec fn record_size(m: MotionModel) -> int {
    record_bones_off(m.sets) + 2 * m.bones.len()
}

/// The full encoded record.
pub open spec fn record_bytes(m: MotionModel) -> Seq<u8> {
    let set_off = record_set_off(m.sets);
    let bones_off = record_bones_off(m.sets);
    let cur = 36 + record_tag_bytes(m.sets).len();
    le32_bytes(32) + le32_bytes(36) + le32_bytes(set_off as u32) + le32_bytes(bones_off as u32)
        + zeros(16) + le16_bytes((m.sets.len() + 1 + 0x3FFF) as u16) + le16_bytes(
        (sets_max_frame(m.sets) + 1) as u16,
    ) + record_tag_bytes(m.sets) + zeros((cur % 6) as nat) + payload_bytes(m.sets, set_off)
        + bones_bytes(m.bones)
}

/// The first reason, if any, for which a record cannot be encoded.
pub open spec fn spec_write_err(m: MotionModel) -> Option<WriteError> {
    if m.sets.len() + 1 >= 0x3FFF {
        Some(WriteError::TooManyChannels)
    } else if exists|i: int| 0 <= i < m.sets.len() && chan_key_count(#[trigger] m.sets[i]) > 0xFFFF {
        Some(WriteError::KeyCountOverflow)
    } else if sets_max_frame(m.sets) + 1 > 0xFFFF {
        Some(WriteError::FrameIndexOverflow)
    } else if exists|i: int| 0 <= i < m.bones.len() && #[trigger] m.bones[i] > 0xFFFF {
        Some(WriteError::BoneIndexOverflow)
    } else if record_size(m) > 0xFFFF_FFFF {
        Some(WriteError::RecordTooLarge)
    } else {
        None
    }
}

/// The record bytes total exactly the preamble, the two 16-bit fields, the
/// tag bytes, the legacy pad, the payload and the bone array.
pub proof fn lemma_record_bytes_len(m: MotionModel)
    ensures
        record_bytes(m).len() == record_size(m),
{
    let cur = 36 + record_tag_bytes(m.sets).len();
    assert(record_bytes(m).len() == 36 + record_tag_bytes(m.sets).len() + cur % 6 + payload_bytes(
        m.sets,
        record_set_off(m.sets),
    ).len() + 2 * m.bones.len());
}

/// An even value is 0 or 2 modulo 4.
pub proof fn lemma_even_mod4(y: int)
    requires
        y % 2 == 0,
    ensures
        y % 4 == 0 || y % 4 == 2,
{
    assert(y % 4 == 0 || y % 4 == 2) by (nonlinear_arith)
        requires
            y % 2 == 0,
    ;
}

/// The value array of a keyed channel is 4-byte aligned: at any even
/// starting position the array begins at an absolute position that is a
/// multiple of four, and when the channel itself starts 4-byte aligned its
/// offset relative to the channel's own start is a multiple of four too.
pub proof fn lemma_value_array_alignment(count: int, pos: int)
    requires
        pos % 2 == 0,
        count >= 0,
    ensures
        (pos + 2 + 2 * count + keyed_pad(pos, count)) % 4 == 0,
        pos % 4 == 0 ==> (2 + 2 * count + keyed_pad(pos, count)) % 4 == 0,
{
    let y = pos + 2 + 2 * count;
    assert(y % 2 == 0) by (nonlinear_arith)
        requires
            pos % 2 == 0,
            y == pos + 2 + 2 * count,
            count >= 0,
    ;
    lemma_even_mod4(y);
    assert((y + y % 4) % 4 == 0) by (nonlinear_arith)
        requires
            y % 4 == 0 || y % 4 == 2,
    ;
    if pos % 4 == 0 {
        assert((2 + 2 * count + y % 4) % 4 == (y + y % 4) % 4) by (nonlinear_arith)
            requires
                pos % 4 == 0,
                y == pos + 2 + 2 * count,
        ;
    }
}

/// A keyed channel laid out at an even position has an even size, so every
/// channel of a record begins at an even position.
pub proof fn lemma_channel_size_even(c: ChannelModel, pos: int)
    requires
        pos % 2 == 0,
    ensures
        channel_size(c, pos) % 2 == 0,
        (pos + channel_size(c, pos)) % 2 == 0,
{
    match c {
        ChannelModel::Empty => {},
        ChannelModel::Pose(_) => {},
        ChannelModel::Linear(ks) => {
            let y = pos + 2 + 2 * ks.len();
            assert(y % 2 == 0) by (nonlinear_arith)
                requires
                    pos % 2 == 0,
                    y == pos + 2 + 2 * ks.len(),
            ;
            lemma_even_mod4(y);
        },
        ChannelModel::Smooth(ks) => {
            let y = pos + 2 + 2 * ks.len();
            assert(y % 2 == 0) by (nonlinear_arith)
                requires
                    pos % 2 == 0,
                    y == pos + 2 + 2 * ks.len(),
            ;
            lemma_even_mod4(y);
        },
    }
    assert((pos + channel_size(c, pos)) % 2 == 0) by (nonlinear_arith)
        requires
            pos % 2 == 0,
            channel_size(c, pos) % 2 == 0,
    ;
}

/// The payload section starts at an even position, whatever the tag count.
pub proof fn lemma_set_off_even(sets: Seq<ChannelModel>)
    ensures
        record_set_off(sets) % 2 == 0,
{
    let cur = 36 + record_tag_bytes(sets).len() as int;
    assert((cur + cur % 6) % 2 == 0) by (nonlinear_arith)
        requires
            cur >= 0,
    ;
}

/// Every channel of a record starts at an even absolute position, so the
/// value-array alignment holds of each keyed channel as laid out.
pub proof fn lemma_record_channel_positions_even(sets: Seq<ChannelModel>, i: int)
    requires
        0 <= i <= sets.len(),
    ensures
        (record_set_off(sets) + payload_bytes(sets.take(i), record_set_off(sets)).len()) % 2 == 0,
    decreases i,
{
    let set_off = record_set_off(sets);
    lemma_set_off_even(sets);
    if i == 0 {
        assert(sets.take(0) =~= Seq::<ChannelModel>::empty());
    } else {
        lemma_record_channel_positions_even(sets, i - 1);
        lemma_payload_snoc(sets, set_off, i - 1);
        let pos = set_off + payload_bytes(sets.take(i - 1), set_off).len();
        lemma_channel_bytes_len(sets[i - 1], pos);
        lemma_channel_size_even(sets[i - 1], pos);
    }
}

proof fn lemma_frames_lin_snoc(ks: Seq<Keyframe>, i: int)
    requires
        0 <= i < ks.len(),
    ensures
        frames_lin_bytes(ks.take(i + 1)) == frames_lin_bytes(ks.take(i)) + le16_bytes(ks[i].frame),
{
    let a = frames_lin_bytes(ks.take(i + 1));
    let b = frames_lin_bytes(ks.take(i)) + le16_bytes(ks[i].frame);
    assert forall|j: int| 0 <= j < a.len() implies a[j] == b[j] by {
        assert(j == 2 * (j / 2) + j % 2);
        assert(j / 2 <= i);
    }
    assert(a =~= b);
}

proof fn lemma_values_lin_snoc(ks: Seq<Keyframe>, i: int)
    requires
        0 <= i < ks.len(),
    ensures
        values_lin_bytes(ks.take(i + 1)) == values_lin_bytes(ks.take(i)) + le32_bytes(ks[i].value),
{
    let a = values_lin_bytes(ks.take(i + 1));
    let b = values_lin_bytes(ks.take(i)) + le32_bytes(ks[i].value);
    assert forall|j: int| 0 <= j < a.len() implies a[j] == b[j] by {
        assert(j == 4 * (j / 4) + j % 4);
        assert(j / 4 <= i);
    }
    assert(a =~= b);
}

proof fn lemma_frames_smooth_snoc(ks: Seq<InterpKeyframe>, i: int)
    requires
        0 <= i < ks.len(),
    ensures
        frames_smooth_bytes(ks.take(i + 1)) == frames_smooth_bytes(ks.take(i)) + le16_bytes(
            ks[i].keyframe.frame,
        ),
{
    let a = frames_smooth_bytes(ks.take(i + 1));
    let b = frames_smooth_bytes(ks.take(i)) + le16_bytes(ks[i].keyframe.frame);
    assert forall|j: int| 0 <= j < a.len() implies a[j] == b[j] by {
        assert(j == 2 * (j / 2) + j % 2);
        assert(j / 2 <= i);
    }
    assert(a =~= b);
}

proof fn lemma_values_smooth_snoc(ks: Seq<InterpKeyframe>, i: int)
    requires
        0 <= i < ks.len(),
    ensures
        values_smooth_bytes(ks.take(i + 1)) == values_smooth_bytes(ks.take(i)) + le32_bytes(
            ks[i].keyframe.value,
        ) + le32_bytes(ks[i].interpolation),
{
    let a = values_smooth_bytes(ks.take(i + 1));
    let b = values_smooth_bytes(ks.take(i)) + le32_bytes(ks[i].keyframe.value) + le32_bytes(
        ks[i].interpolation,
    );
    assert forall|j: int| 0 <= j < a.len() implies a[j] == b[j] by {
        assert(j == 8 * (j / 8) + j % 8);
        assert(j / 8 <= i);
    }
    assert(a =~= b);
}

pub(crate) proof fn lemma_bones_snoc(bones: Seq<usize>, i: int)
    requires
        0 <= i < bones.len(),
    ensures
        bones_bytes(bones.take(i + 1)) == bones_bytes(bones.take(i)) + le16_bytes(
            bones[i] as u16,
        ),
{
    let a = bones_bytes(bones.take(i + 1));
    let b = bones_bytes(bones.take(i)) + le16_bytes(bones[i] as u16);
    assert forall|j: int| 0 <= j < a.len() implies a[j] == b[j] by {
        assert(j == 2 * (j / 2) + j % 2);
        assert(j / 2 <= i);
    }
    assert(a =~= b);
}

/// A prefix of the payload is never longer than the whole payload.
proof fn lemma_payload_take_le(sets: Seq<ChannelModel>, pos: int, i: int)
    requires
        0 <= i <= sets.len(),
    ensures
        payload_bytes(sets.take(i), pos).len() <= payload_bytes(sets, pos).len(),
    decreases sets.len() - i,
{
    if i == sets.len() {
        assert(sets.take(i) =~= sets);
    } else {
        lemma_payload_snoc(sets, pos, i);
        lemma_payload_take_le(sets, pos, i + 1);
    }
}

impl FrameData {
    /// The largest frame index among this channel's keyframes, or 0.
    pub fn get_max_keyframe(&self) -> (r: u16)
        ensures
            r == chan_max_frame(self.model()),
    {
        match self {
            FrameData::Empty => 0,
            FrameData::Pose(_) => 0,
            FrameData::Linear(ks) => {
                let mut m: u16 = 0;
                let mut i: usize = 0;
                while i < ks.len()
                    invariant
                        i <= ks@.len(),
                        m == lin_max_frame(ks@.take(i as int)),
                    decreases ks@.len() - i,
                {
                    proof {
                        assert(ks@.take(i + 1).drop_last() =~= ks@.take(i as int));
                    }
                    if ks[i].frame > m {
                        m = ks[i].frame;
                    }
                    i = i + 1;
                }
                proof {
                    assert(ks@.take(ks@.len() as int) =~= ks@);
                }
                m
            },
            FrameData::Smooth(ks) => {
                let mut m: u16 = 0;
                let mut i: usize = 0;
                while i < ks.len()
                    invariant
                        i <= ks@.len(),
                        m == smooth_max_frame(ks@.take(i as int)),
                    decreases ks@.len() - i,
                {
                    proof {
                        assert(ks@.take(i + 1).drop_last() =~= ks@.take(i as int));
                    }
                    if ks[i].keyframe.frame > m {
                        m = ks[i].keyframe.frame;
                    }
                    i = i + 1;
                }
                proof {
                    assert(ks@.take(ks@.len() as int) =~= ks@);
                }
                m
            },
        }
    }

    /// Appends this channel's payload bytes to `out`, whose current length
    /// is the channel's absolute position.
    pub fn write(&self, out: &mut Vec<u8>)
        requires
            chan_key_count(self.model()) <= 0xFFFF,
        ensures
            final(out)@ == old(out)@ + channel_bytes(self.model(), old(out)@.len() as int),
    {
        let ghost base = out@;
        let ghost pos = out@.len() as int;
        match self {
            FrameData::Empty => {
                proof {
                    assert(base + channel_bytes(self.model(), pos) =~= base);
                }
            },
            FrameData::Pose(v) => {
                push_u32(out, *v);
            },
            FrameData::Linear(ks) => {
                let c: usize = ks.len();
                push_u16(out, c as u16);
                let ghost part1 = base + le16_bytes(c as u16);
                let mut i: usize = 0;
                while i < c
                    invariant
                        c == ks@.len(),
                        c <= 0xFFFF,
                        i <= c,
                        out@ == part1 + frames_lin_bytes(ks@.take(i as int)),
                        part1 == base + le16_bytes(c as u16),
                    decreases c - i,
                {
                    push_u16(out, ks[i].frame);
                    proof {
                        lemma_frames_lin_snoc(ks@, i as int);
                        assert((part1 + frames_lin_bytes(ks@.take(i as int))) + le16_bytes(
                            ks@[i as int].frame,
                        ) =~= part1 + frames_lin_bytes(ks@.take(i + 1)));
                    }
                    i = i + 1;
                }
                proof {
                    assert(ks@.take(c as int) =~= ks@);
                }
                let pad: usize = out.len() % 4;
                proof {
                    assert(out@.len() == pos + 2 + 2 * c);
                    assert(pad == keyed_pad(pos, c as int));
                }
                push_zeros(out, pad);
                let ghost part2 = part1 + frames_lin_bytes(ks@) + zeros(pad as nat);
                proof {
                    assert((part1 + frames_lin_bytes(ks@)) + zeros(pad as nat) =~= part2);
                }
                let mut i: usize = 0;
                while i < c
                    invariant
                        c == ks@.len(),
                        c <= 0xFFFF,
                        i <= c,
                        out@ == part2 + values_lin_bytes(ks@.take(i as int)),
                        part2 == part1 + frames_lin_bytes(ks@) + zeros(
                            keyed_pad(pos, c as int) as nat,
                        ),
                        part1 == base + le16_bytes(c as u16),
                        pad == keyed_pad(pos, c as int),
                    decreases c - i,
                {
                    push_u32(out, ks[i].value);
                    proof {
                        lemma_values_lin_snoc(ks@, i as int);
                        assert((part2 + values_lin_bytes(ks@.take(i as int))) + le32_bytes(
                            ks@[i as int].value,
                        ) =~= part2 + values_lin_bytes(ks@.take(i + 1)));
                    }
                    i = i + 1;
                }
                proof {
                    assert(ks@.take(c as int) =~= ks@);
                    assert(out@ =~= base + channel_bytes(self.model(), pos));
                }
            },
            FrameData::Smooth(ks) => {
                let c: usize = ks.len();
                push_u16(out, c as u16);
                let ghost part1 = base + le16_bytes(c as u16);
                let mut i: usize = 0;
                while i < c
                    invariant
                        c == ks@.len(),
                        c <= 0xFFFF,
                        i <= c,
                        out@ == part1 + frames_smooth_bytes(ks@.take(i as int)),
                        part1 == base + le16_bytes(c as u16),
                    decreases c - i,
                {
                    push_u16(out, ks[i].keyframe.frame);
                    proof {
                        lemma_frames_smooth_snoc(ks@, i as int);
                        assert((part1 + frames_smooth_bytes(ks@.take(i as int))) + le16_bytes(
                            ks@[i as int].keyframe.frame,
                        ) =~= part1 + frames_smooth_bytes(ks@.take(i + 1)));
                    }
                    i = i + 1;
                }
                proof {
                    assert(ks@.take(c as int) =~= ks@);
                }
                let pad: usize = out.len() % 4;
                proof {
                    assert(out@.len() == pos + 2 + 2 * c);
                    assert(pad == keyed_pad(pos, c as int));
                }
                push_zeros(out, pad);
                let ghost part2 = part1 + frames_smooth_bytes(ks@) + zeros(pad as nat);
                proof {
                    assert((part1 + frames_smooth_bytes(ks@)) + zeros(pad as nat) =~= part2);
                }
                let mut i: usize = 0;
                while i < c
                    invariant
                        c == ks@.len(),
                        c <= 0xFFFF,
                        i <= c,
                        out@ == part2 + values_smooth_bytes(ks@.take(i as int)),
                        part2 == part1 + frames_smooth_bytes(ks@) + zeros(
                            keyed_pad(pos, c as int) as nat,
                        ),
                        part1 == base + le16_bytes(c as u16),
                        pad == keyed_pad(pos, c as int),
                    decreases c - i,
                {
                    push_u32(out, ks[i].keyframe.value);
                    push_u32(out, ks[i].interpolation);
                    proof {
                        lemma_values_smooth_snoc(ks@, i as int);
                        assert(((part2 + values_smooth_bytes(ks@.take(i as int))) + le32_bytes(
                            ks@[i as int].keyframe.value,
                        )) + le32_bytes(ks@[i as int].interpolation) =~= part2
                            + values_smooth_bytes(ks@.take(i + 1)));
                    }
                    i = i + 1;
                }
                proof {
                    assert(ks@.take(c as int) =~= ks@);
                    assert(out@ =~= base + channel_bytes(self.model(), pos));
                }
            },
        }
    }
}

impl Motion {
    /// The packed tag bytes of this record's channels.
    pub fn get_bits(&self) -> (r: Vec<u8>)
        ensures
            r@ == record_tag_bytes(self.model().sets),
    {
        let mut ts: Vec<SetType> = Vec::new();
        let mut i: usize = 0;
        while i < self.sets.len()
            invariant
                i <= self.sets@.len(),
                ts@.len() == i,
                forall|j: int| 0 <= j < i ==> ts@[j] == channel_set_type(
                    #[trigger] self.sets@[j].model(),
                ),
            decreases self.sets@.len() - i,
        {
            ts.push(self.sets[i].set_type());
            i = i + 1;
        }
        proof {
            assert(ts@ =~= self.model().sets.map_values(|c: ChannelModel| channel_set_type(c)));
        }
        pack_tags(&ts)
    }

    /// The largest frame index over all of this record's channels, or 0.
    pub fn get_max_keyframe(&self) -> (r: u16)
        ensures
            r == sets_max_frame(self.model().sets),
    {
        let mut m: u16 = 0;
        let mut i: usize = 0;
        while i < self.sets.len()
            invariant
                i <= self.sets@.len(),
                m == sets_max_frame(self.model().sets.take(i as int)),
            decreases self.sets@.len() - i,
        {
            proof {
                assert(self.model().sets.take(i + 1).drop_last() =~= self.model().sets.take(
                    i as int,
                ));
                assert(self.model().sets.take(i + 1).last() == self.sets@[i as int].model());
            }
            let cm = self.sets[i].get_max_keyframe();
            if cm > m {
                m = cm;
            }
            i = i + 1;
        }
        proof {
            assert(self.model().sets.take(self.sets@.len() as int) =~= self.model().sets);
        }
        m
    }

    /// Encodes this record.
    ///
    /// Succeeds exactly when every field of the layout can hold its value
    /// and the record fits its 32-bit offsets; the bytes returned are the
    /// record layout, byte for byte.
    #[verifier::rlimit(60)]
    pub fn write(&self) -> (r: Result<Vec<u8>, WriteError>)
        ensures
            match r {
                Ok(out) => spec_write_err(self.model()) is None && out@ == record_bytes(
                    self.model(),
                ),
                Err(e) => spec_write_err(self.model()) == Some(e),
            },
    {
        let ghost m = self.model();
        proof {
            assert(m.sets.len() == self.sets@.len());
            assert(forall|j: int|
                0 <= j < self.sets@.len() ==> m.sets[j] == #[trigger] self.sets@[j].model());
            assert(m.bones == self.bones@);
        }
        let n: usize = self.sets.len();
        if n >= 0x3FFE {
            return Err(WriteError::TooManyChannels);
        }
        let mut i: usize = 0;
        while i < n
            invariant
                n == self.sets@.len(),
                n < 0x3FFE,
                i <= n,
                m == self.model(),
                m.sets.len() == n,
                forall|j: int|
                    0 <= j < n ==> m.sets[j] == #[trigger] self.sets@[j].model(),
                forall|j: int| 0 <= j < i ==> chan_key_count(#[trigger] m.sets[j]) <= 0xFFFF,
            decreases n - i,
        {
            let over: bool = match &self.sets[i] {
                FrameData::Linear(ks) => ks.len() > 0xFFFF,
                FrameData::Smooth(ks) => ks.len() > 0xFFFF,
                _ => false,
            };
            if over {
                proof {
                    assert(chan_key_count(m.sets[i as int]) > 0xFFFF);
                }
                return Err(WriteError::KeyCountOverflow);
            }
            proof {
                assert(chan_key_count(m.sets[i as int]) <= 0xFFFF);
            }
            i = i + 1;
        }
        let maxf: u16 = self.get_max_keyframe();
        if maxf == 0xFFFF {
            return Err(WriteError::FrameIndexOverflow);
        }
        let mut i: usize = 0;
        while i < self.bones.len()
            invariant
                n == self.sets@.len(),
                m == self.model(),
                m.sets.len() == n,
                m.bones == self.bones@,
                n < 0x3FFE,
                maxf == sets_max_frame(m.sets),
                maxf < 0xFFFF,
                forall|j: int| 0 <= j < n ==> chan_key_count(#[trigger] m.sets[j]) <= 0xFFFF,
                i <= self.bones@.len(),
                forall|j: int| 0 <= j < i ==> #[trigger] self.bones@[j] <= 0xFFFF,
            decreases self.bones@.len() - i,
        {
            if self.bones[i] > 0xFFFF {
                return Err(WriteError::BoneIndexOverflow);
            }
            i = i + 1;
        }
        // Measure the body so the preamble offsets can be written up front.
        let tag_len: usize = n / 4 + if n % 4 == 0 { 0 } else { 1 };
        proof {
            assert(tag_len == record_tag_bytes(m.sets).len());
        }
        let cur: usize = 36 + tag_len;
        let set_off: usize = cur + cur % 6;
        proof {
            assert(set_off == record_set_off(m.sets));
        }
        let mut pos: u64 = set_off as u64;
        let mut i: usize = 0;
        while i < n
            invariant
                n == self.sets@.len(),
                n < 0x3FFE,
                i <= n,
                m == self.model(),
                m.sets.len() == n,
                m.bones == self.bones@,
                forall|j: int|
                    0 <= j < n ==> m.sets[j] == #[trigger] self.sets@[j].model(),
                forall|j: int| 0 <= j < n ==> chan_key_count(#[trigger] m.sets[j]) <= 0xFFFF,
                maxf == sets_max_frame(m.sets),
                maxf < 0xFFFF,
                forall|j: int| 0 <= j < m.bones.len() ==> #[trigger] m.bones[j] <= 0xFFFF,
                set_off == record_set_off(m.sets),
                pos == set_off + payload_bytes(m.sets.take(i as int), set_off as int).len(),
                pos <= 0xFFFF_FFFF,
            decreases n - i,
        {
            let sz: u64 = match &self.sets[i] {
                FrameData::Empty => 0,
                FrameData::Pose(_) => 4,
                FrameData::Linear(ks) => {
                    let c: u64 = ks.len() as u64;
                    2 + 2 * c + (pos + 2 + 2 * c) % 4 + 4 * c
                },
                FrameData::Smooth(ks) => {
                    let c: u64 = ks.len() as u64;
                    2 + 2 * c + (pos + 2 + 2 * c) % 4 + 8 * c
                },
            };
            proof {
                assert(sz == channel_size(m.sets[i as int], pos as int));
                lemma_payload_snoc(m.sets, set_off as int, i as int);
                lemma_channel_bytes_len(m.sets[i as int], pos as int);
            }
            if 0xFFFF_FFFFu64 - pos < sz {
                proof {
                    lemma_payload_take_le(m.sets, set_off as int, i + 1);
                    lemma_record_bytes_len(m);
                }
                return Err(WriteError::RecordTooLarge);
            }
            pos = pos + sz;
            i = i + 1;
        }
        proof {
            assert(m.sets.take(n as int) =~= m.sets);
        }
        let bones_off: u64 = pos;
        proof {
            assert(bones_off == record_bones_off(m.sets));
            lemma_record_bytes_len(m);
        }
        let nb: usize = self.bones.len();
        if (0xFFFF_FFFFu64 - bones_off) / 2 < nb as u64 {
            proof {
                assert(bones_off + 2 * (nb as u64) > 0xFFFF_FFFF) by (nonlinear_arith)
                    requires
                        (0xFFFF_FFFFu64 - bones_off) / 2 < nb as u64,
                        bones_off <= 0xFFFF_FFFF,
                ;
            }
            return Err(WriteError::RecordTooLarge);
        }
        proof {
            assert(bones_off + 2 * (nb as u64) <= 0xFFFF_FFFF) by (nonlinear_arith)
                requires
                    (0xFFFF_FFFFu64 - bones_off) / 2 >= nb as u64,
                    bones_off <= 0xFFFF_FFFF,
            ;
            assert(record_size(m) <= 0xFFFF_FFFF);
            assert(spec_write_err(m) is None);
        }
        // Emit the record.
        let mut out: Vec<u8> = Vec::new();
        push_u32(&mut out, 32);
        proof {
            assert(out@ =~= le32_bytes(32));
        }
        push_u32(&mut out, 36);
        push_u32(&mut out, set_off as u32);
        push_u32(&mut out, bones_off as u32);
        push_zeros(&mut out, 16);
        push_u16(&mut out, n as u16 + 1 + 0x3FFF);
        proof {
            assert(n as u16 + 1 + 0x3FFF == (m.sets.len() + 1 + 0x3FFF) as u16);
        }
        push_u16(&mut out, maxf + 1);
        proof {
            assert(maxf + 1 == (sets_max_frame(m.sets) + 1) as u16);
        }
        let mut tb: Vec<u8> = self.get_bits();
        out.append(&mut tb);
        push_zeros(&mut out, cur % 6);
        let ghost header = le32_bytes(32) + le32_bytes(36) + le32_bytes(set_off as u32)
            + le32_bytes(bones_off as u32) + zeros(16) + le16_bytes(
            (m.sets.len() + 1 + 0x3FFF) as u16,
        ) + le16_bytes((sets_max_frame(m.sets) + 1) as u16) + record_tag_bytes(m.sets) + zeros(
            ((36 + record_tag_bytes(m.sets).len() as int) % 6) as nat,
        );
        proof {
            assert(out@ == header);
            assert(out@.len() == set_off);
        }
        let mut i: usize = 0;
        while i < n
            invariant
                n == self.sets@.len(),
                i <= n,
                m == self.model(),
                m.sets.len() == n,
                forall|j: int|
                    0 <= j < n ==> m.sets[j] == #[trigger] self.sets@[j].model(),
                forall|j: int| 0 <= j < n ==> chan_key_count(#[trigger] m.sets[j]) <= 0xFFFF,
                spec_write_err(m) is None,
                set_off == record_set_off(m.sets),
                out@ == header + payload_bytes(m.sets.take(i as int), set_off as int),
                out@.len() == set_off + payload_bytes(m.sets.take(i as int), set_off as int).len(),
                header.len() == set_off,
            decreases n - i,
        {
            proof {
                lemma_payload_snoc(m.sets, set_off as int, i as int);
                lemma_channel_bytes_len(m.sets[i as int], out@.len() as int);
            }
            self.sets[i].write(&mut out);
            proof {
                assert((header + payload_bytes(m.sets.take(i as int), set_off as int))
                    + channel_bytes(
                    m.sets[i as int],
                    set_off + payload_bytes(m.sets.take(i as int), set_off as int).len(),
                ) =~= header + payload_bytes(m.sets.take(i + 1), set_off as int));
            }
            i = i + 1;
        }
        proof {
            assert(m.sets.take(n as int) =~= m.sets);
        }
        let ghost with_payload = header + payload_bytes(m.sets, set_off as int);
        let mut i: usize = 0;
        while i < nb
            invariant
                nb == self.bones@.len(),
                i <= nb,
                m == self.model(),
                m.bones == self.bones@,
                forall|j: int| 0 <= j < nb ==> #[trigger] self.bones@[j] <= 0xFFFF,
                spec_write_err(m) is None,
                set_off == record_set_off(m.sets),
                out@ == with_payload + bones_bytes(m.bones.take(i as int)),
                with_payload == header + payload_bytes(m.sets, set_off as int),
                header == le32_bytes(32) + le32_bytes(36) + le32_bytes(set_off as u32)
                    + le32_bytes(record_bones_off(m.sets) as u32) + zeros(16) + le16_bytes(
                    (m.sets.len() + 1 + 0x3FFF) as u16,
                ) + le16_bytes((sets_max_frame(m.sets) + 1) as u16) + record_tag_bytes(m.sets)
                    + zeros(((36 + record_tag_bytes(m.sets).len() as int) % 6) as nat),
            decreases nb - i,
        {
            push_u16(&mut out, self.bones[i] as u16);
            proof {
                lemma_bones_snoc(m.bones, i as int);
                assert((with_payload + bones_bytes(m.bones.take(i as int))) + le16_bytes(
                    m.bones[i as int] as u16,
                ) =~= with_payload + bones_bytes(m.bones.take(i + 1)));
            }
            i = i + 1;
        }
        proof {
            assert(m.bones.take(nb as int) =~= m.bones);
            assert(out@ =~= record_bytes(m));
        }
        Ok(out)
    }
}

} // verus!
