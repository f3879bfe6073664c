//! The structured-motion encoder.
//!
//! A structured motion serializes through the same record layout as a flat
//! one: each bone's animation flattens into its constituent channels, in
//! field order, and those channels follow the identical channel-encoding
//! rule. Bones with no animation contribute a bone index but no channels.
//! The count field additionally reserves the mandatory trailing terminator
//! channel on top of the flattened channel count.

use vstd::prelude::*;

use crate::ChannelModel;
use crate::FrameData;
use crate::MotionModel;
use crate::bytes::le16_bytes;
use crate::bytes::le32_bytes;
use crate::bytes::push_u16;
use crate::bytes::push_u32;
use crate::bytes::push_zeros;
use crate::bytes::zeros;
use crate::qualified::BoneAnim;
use crate::qualified::BoneAnimModel;
use crate::qualified::QualifiedMotion;
use crate::qualified::Vec3;
use crate::qualified::Vec3Model;
use crate::qualified::anim_entry_model;
use crate::tags::SetType;
use crate::tags::channel_set_type;
use crate::tags::pack_tags;
use crate::tags::spec_pack_tags;
use crate::tags::tag_code;
use crate::write::WriteError;
use crate::write::chan_key_count;
use crate::write::channel_bytes;
use crate::write::channel_size;
use crate::write::lemma_channel_bytes_len;
use crate::write::payload_bytes;
use crate::write::sets_max_frame;
use crate::write::bones_bytes;

verus! {

/// A channel triple flattened to its channels, x first.
pub open spec fn vec3_channels(v: Vec3Model) -> Seq<ChannelModel> {
    seq![v.x, v.y, v.z]
}

/// An animation flattened to its channels, in encode order: the variant's
/// first field first.
pub open spec fn anim_channels(a: BoneAnimModel) -> Seq<ChannelModel> {
    match a {
        BoneAnimModel::Rotation(v) => vec3_channels(v),
        BoneAnimModel::Type1(a0, a1) => vec3_channels(a0) + vec3_channels(a1),
        BoneAnimModel::Position(v) => vec3_channels(v),
        BoneAnimModel::PositionRotation { position, rotation } => vec3_channels(position)
            + vec3_channels(rotation),
        BoneAnimModel::RotationIK { target, rotation } => vec3_channels(target) + vec3_channels(
            rotation,
        ),
        BoneAnimModel::ArmIK { target, rotation } => vec3_channels(target) + vec3_channels(
            rotation,
        ),
        BoneAnimModel::PositionIKRotation { position, target } => vec3_channels(position)
            + vec3_channels(target),
    }
}

/// What one entry contributes to the flat channel sequence: nothing for a
/// bone without animation.
pub open spec fn entry_channels(p: (usize, Option<BoneAnimModel>)) -> Seq<ChannelModel> {
    match p.1 {
        None => Seq::empty(),
        Some(a) => anim_channels(a),
    }
}

/// The flat channel sequence of a structured motion.
pub open spec fn qualified_channels(q: Seq<(usize, Option<BoneAnimModel>)>) -> Seq<ChannelModel>
    decreases q.len(),
{
    if q.len() == 0 {
        Seq::empty()
    } else {
        entry_channels(q[0]) + qualified_channels(q.drop_first())
    }
}

/// The bone-index sequence of a structured motion: every entry's index,
/// animated or not.
pub open spec fn qualified_bones(q: Seq<(usize, Option<BoneAnimModel>)>) -> Seq<usize> {
    Seq::new(q.len(), |i: int| q[i].0)
}

/// The flat record a structured motion stands for.
pub open spec fn qualified_model(q: Seq<(usize, Option<BoneAnimModel>)>) -> MotionModel {
    MotionModel { sets: qualified_channels(q), bones: qualified_bones(q) }
}

proof fn lemma_qualified_channels_snoc(q: Seq<(usize, Option<BoneAnimModel>)>, i: int)
    requires
        0 <= i < q.len(),
    ensures
        qualified_channels(q.take(i + 1)) == qualified_channels(q.take(i)) + entry_channels(q[i]),
    decreases i,
{
    if i == 0 {
        assert(q.take(0) =~= Seq::<(usize, Option<BoneAnimModel>)>::empty());
        assert(q.take(1)[0] == q[0]);
        assert(q.take(1).drop_first() =~= Seq::<(usize, Option<BoneAnimModel>)>::empty());
        assert(entry_channels(q[0]) + Seq::<ChannelModel>::empty() =~= entry_channels(q[0]));
        assert(Seq::<ChannelModel>::empty() + entry_channels(q[0]) =~= entry_channels(q[0]));
    } else {
        let rest = q.drop_first();
        lemma_qualified_channels_snoc(rest, i - 1);
        assert(q.take(i + 1).drop_first() =~= rest.take(i));
        assert(q.take(i).drop_first() =~= rest.take(i - 1));
        assert(q.take(i + 1)[0] == q[0]);
        assert(q.take(i)[0] == q[0]);
        assert(rest[i - 1] == q[i]);
        let e0 = entry_channels(q[0]);
        let a = qualified_channels(rest.take(i - 1));
        let b = entry_channels(q[i]);
        assert(qualified_channels(q.take(i + 1)) == e0 + (a + b));
        assert(qualified_channels(q.take(i)) == e0 + a);
        assert(e0 + (a + b) =~= (e0 + a) + b);
    }
}

/// The payload of concatenated channel runs: each run at the position the
/// earlier runs reach.
proof fn lemma_payload_app(a: Seq<ChannelModel>, b: Seq<ChannelModel>, pos: int)
    ensures
        payload_bytes(a + b, pos) == payload_bytes(a, pos) + payload_bytes(
            b,
            pos + payload_bytes(a, pos).len(),
        ),
    decreases a.len(),
{
    if a.len() == 0 {
        assert(a + b =~= b);
        assert(Seq::<u8>::empty() + payload_bytes(b, pos) =~= payload_bytes(b, pos));
    } else {
        let c0 = a[0];
        let sz0 = channel_size(c0, pos);
        lemma_channel_bytes_len(c0, pos);
        assert((a + b)[0] == c0);
        assert((a + b).drop_first() =~= a.drop_first() + b);
        lemma_payload_app(a.drop_first(), b, pos + sz0);
        let cb0 = channel_bytes(c0, pos);
        let pa = payload_bytes(a.drop_first(), pos + sz0);
        let pb = payload_bytes(b, pos + sz0 + pa.len());
        assert(payload_bytes(a + b, pos) == cb0 + (pa + pb));
        assert(payload_bytes(a, pos) == cb0 + pa);
        assert(cb0 + (pa + pb) =~= (cb0 + pa) + pb);
        assert(pos + (cb0 + pa).len() == pos + sz0 + pa.len());
    }
}

/// The largest frame index of concatenated channel runs.
proof fn lemma_sets_max_app(a: Seq<ChannelModel>, b: Seq<ChannelModel>)
    ensures
        sets_max_frame(a + b) == (if sets_max_frame(a) > sets_max_frame(b) {
            sets_max_frame(a)
        } else {
            sets_max_frame(b)
        }),
    decreases b.len(),
{
    if b.len() == 0 {
        assert(a + b =~= a);
    } else {
        assert((a + b).drop_last() =~= a + b.drop_last());
        assert((a + b).last() == b.last());
        lemma_sets_max_app(a, b.drop_last());
    }
}

/// A bone's animation, built from the channels at `off`, flattens back to
/// exactly those channels.
proof fn lemma_build_channels(t: crate::qualified::BoneType, sets: Seq<ChannelModel>, off: int)
    requires
        0 <= off,
        off + crate::qualified::bone_type_count(t) <= sets.len(),
    ensures
        anim_channels(crate::qualified::spec_build(t, sets, off)) == sets.subrange(
            off,
            off + crate::qualified::bone_type_count(t),
        ),
{
    let a = crate::qualified::spec_build(t, sets, off);
    assert(anim_channels(a) =~= sets.subrange(off, off + crate::qualified::bone_type_count(t)));
}

/// Flattening inverts qualification: the channels of a qualification's
/// result are exactly the prefix of the flat channel sequence that the
/// bones' types consumed, in order, and its bone indices are the flat
/// record's bones unchanged. This is the inverse direction the encoder
/// relies on.
pub proof fn lemma_qualify_flatten(
    names: Seq<String>,
    types: Seq<(String, crate::qualified::BoneType)>,
    m: MotionModel,
)
    requires
        crate::qualified::spec_required(names, types, m.bones) <= m.sets.len(),
    ensures
        qualified_channels(crate::qualified::spec_qualify(names, types, m)) == m.sets.take(
            crate::qualified::spec_required(names, types, m.bones),
        ),
        qualified_bones(crate::qualified::spec_qualify(names, types, m)) == m.bones,
{
    let q = crate::qualified::spec_qualify(names, types, m);
    let n = m.bones.len() as int;
    assert forall|i: int| 0 <= i <= n implies qualified_channels(#[trigger] q.take(i)) == m.sets.take(
        crate::qualified::spec_required(names, types, m.bones.take(i)),
    ) by {
        lemma_qualify_flatten_prefix(names, types, m, i);
    }
    assert(q.take(n) =~= q);
    assert(m.bones.take(n) =~= m.bones);
    assert(qualified_bones(q) =~= m.bones);
}

proof fn lemma_qualify_flatten_prefix(
    names: Seq<String>,
    types: Seq<(String, crate::qualified::BoneType)>,
    m: MotionModel,
    i: int,
)
    requires
        crate::qualified::spec_required(names, types, m.bones) <= m.sets.len(),
        0 <= i <= m.bones.len(),
    ensures
        qualified_channels(
            crate::qualified::spec_qualify(names, types, m).take(i),
        ) == m.sets.take(crate::qualified::spec_required(names, types, m.bones.take(i))),
    decreases i,
{
    let q = crate::qualified::spec_qualify(names, types, m);
    if i == 0 {
        assert(q.take(0) =~= Seq::<(usize, Option<BoneAnimModel>)>::empty());
        assert(m.bones.take(0) =~= Seq::<usize>::empty());
        assert(m.sets.take(0) =~= Seq::<ChannelModel>::empty());
    } else {
        lemma_qualify_flatten_prefix(names, types, m, i - 1);
        lemma_qualified_channels_snoc(q, i - 1);
        crate::qualified::lemma_required_snoc(names, types, m.bones, i - 1);
        crate::qualified::lemma_required_prefix_le(names, types, m.bones, i);
        crate::qualified::lemma_required_nonneg(names, types, m.bones.take(i - 1));
        let req_prev = crate::qualified::spec_required(names, types, m.bones.take(i - 1));
        let req_now = crate::qualified::spec_required(names, types, m.bones.take(i));
        let entry = q[i - 1];
        match crate::qualified::spec_resolve(names, types, m.bones[i - 1]) {
            None => {
                assert(entry_channels(entry) =~= Seq::<ChannelModel>::empty());
                assert(req_now == req_prev);
                assert(m.sets.take(req_prev) + Seq::<ChannelModel>::empty() =~= m.sets.take(
                    req_prev,
                ));
            },
            Some(t) => {
                lemma_build_channels(t, m.sets, req_prev);
                assert(entry_channels(entry) == m.sets.subrange(
                    req_prev,
                    req_prev + crate::qualified::bone_type_count(t),
                ));
                assert(m.sets.take(req_prev) + m.sets.subrange(req_prev, req_now) =~= m.sets.take(
                    req_now,
                ));
            },
        }
    }
}

/// All three channels of a triple fit their 16-bit key-count fields.
pub open spec fn vec3_keys_ok(v: Vec3Model) -> bool {
    &&& chan_key_count(v.x) <= 0xFFFF
    &&& chan_key_count(v.y) <= 0xFFFF
    &&& chan_key_count(v.z) <= 0xFFFF
}

/// Every channel of an animation fits its 16-bit key-count field.
pub open spec fn anim_keys_ok(a: BoneAnimModel) -> bool {
    match a {
        BoneAnimModel::Rotation(v) => vec3_keys_ok(v),
        BoneAnimModel::Type1(a0, a1) => vec3_keys_ok(a0) && vec3_keys_ok(a1),
        BoneAnimModel::Position(v) => vec3_keys_ok(v),
        BoneAnimModel::PositionRotation { position, rotation } => vec3_keys_ok(position)
            && vec3_keys_ok(rotation),
        BoneAnimModel::RotationIK { target, rotation } => vec3_keys_ok(target) && vec3_keys_ok(
            rotation,
        ),
        BoneAnimModel::ArmIK { target, rotation } => vec3_keys_ok(target) && vec3_keys_ok(
            rotation,
        ),
        BoneAnimModel::PositionIKRotation { position, target } => vec3_keys_ok(position)
            && vec3_keys_ok(target),
    }
}

/// An animation's channels all fit their key-count fields exactly when the
/// per-field check says so.
proof fn lemma_anim_keys_ok(a: BoneAnimModel)
    ensures
        anim_keys_ok(a) <==> (forall|j: int|
            0 <= j < anim_channels(a).len() ==> chan_key_count(#[trigger] anim_channels(a)[j])
                <= 0xFFFF),
{
    let ch = anim_channels(a);
    if anim_keys_ok(a) {
        assert forall|j: int| 0 <= j < ch.len() implies chan_key_count(#[trigger] ch[j]) <= 0xFFFF
            by {
            assert(0 <= j < 6);
        }
    } else {
        match a {
            BoneAnimModel::Rotation(v) => {
                assert(ch[0] == v.x && ch[1] == v.y && ch[2] == v.z);
            },
            BoneAnimModel::Type1(a0, a1) => {
                assert(ch[0] == a0.x && ch[1] == a0.y && ch[2] == a0.z && ch[3] == a1.x && ch[4]
                    == a1.y && ch[5] == a1.z);
            },
            BoneAnimModel::Position(v) => {
                assert(ch[0] == v.x && ch[1] == v.y && ch[2] == v.z);
            },
            BoneAnimModel::PositionRotation { position, rotation } => {
                assert(ch[0] == position.x && ch[1] == position.y && ch[2] == position.z && ch[3]
                    == rotation.x && ch[4] == rotation.y && ch[5] == rotation.z);
            },
            BoneAnimModel::RotationIK { target, rotation } => {
                assert(ch[0] == target.x && ch[1] == target.y && ch[2] == target.z && ch[3]
                    == rotation.x && ch[4] == rotation.y && ch[5] == rotation.z);
            },
            BoneAnimModel::ArmIK { target, rotation } => {
                assert(ch[0] == target.x && ch[1] == target.y && ch[2] == target.z && ch[3]
                    == rotation.x && ch[4] == rotation.y && ch[5] == rotation.z);
            },
            BoneAnimModel::PositionIKRotation { position, target } => {
                assert(ch[0] == position.x && ch[1] == position.y && ch[2] == position.z && ch[3]
                    == target.x && ch[4] == target.y && ch[5] == target.z);
            },
        }
    }
}

impl FrameData {
    /// How many keyframes this channel stores in its count field.
    pub fn key_count(&self) -> (r: usize)
        ensures
            r == chan_key_count(self.model()),
    {
        match self {
            FrameData::Linear(ks) => ks.len(),
            FrameData::Smooth(ks) => ks.len(),
            _ => 0,
        }
    }
}

impl Vec3 {
    /// Whether all three channels fit their 16-bit key-count fields.
    pub fn keys_ok(&self) -> (r: bool)
        ensures
            r == vec3_keys_ok(self.model()),
    {
        self.x.key_count() <= 0xFFFF && self.y.key_count() <= 0xFFFF && self.z.key_count()
            <= 0xFFFF
    }

    /// The 2-bit tag codes of the three channels, x first.
    pub fn get_bits(&self) -> (r: Vec<u8>)
        ensures
            r@ == vec3_channels(self.model()).map_values(
                |c: ChannelModel| tag_code(channel_set_type(c)),
            ),
    {
        let mut r: Vec<u8> = Vec::new();
        r.push(self.x.as_bits());
        r.push(self.y.as_bits());
        r.push(self.z.as_bits());
        proof {
            assert(r@ =~= vec3_channels(self.model()).map_values(
                |c: ChannelModel| tag_code(channel_set_type(c)),
            ));
        }
        r
    }

    /// The largest frame index among the three channels, or 0.
    pub fn get_max_keyframe(&self) -> (r: u16)
        ensures
            r == sets_max_frame(vec3_channels(self.model())),
    {
        let mx: u16 = self.x.get_max_keyframe();
        let my: u16 = self.y.get_max_keyframe();
        let mz: u16 = self.z.get_max_keyframe();
        let mut r: u16 = mx;
        if my > r {
            r = my;
        }
        if mz > r {
            r = mz;
        }
        proof {
            reveal_with_fuel(crate::write::sets_max_frame, 5);
            let s = vec3_channels(self.model());
            assert(s.drop_last() =~= seq![self.model().x, self.model().y]);
            assert(s.drop_last().drop_last() =~= seq![self.model().x]);
            assert(s.drop_last().drop_last().drop_last() =~= Seq::<ChannelModel>::empty());
        }
        r
    }

    /// Appends the three channels' payload bytes, x first.
    #[verifier::rlimit(100)]
    pub fn write(&self, out: &mut Vec<u8>)
        requires
            vec3_keys_ok(self.model()),
        ensures
            final(out)@ == old(out)@ + payload_bytes(
                vec3_channels(self.model()),
                old(out)@.len() as int,
            ),
    {
        let ghost base = out@;
        let ghost pos = out@.len() as int;
        let ghost m = self.model();
        self.x.write(out);
        self.y.write(out);
        self.z.write(out);
        proof {
            reveal_with_fuel(crate::write::payload_bytes, 5);
            let s = vec3_channels(m);
            assert(s.drop_first() =~= seq![m.y, m.z]);
            assert(s.drop_first().drop_first() =~= seq![m.z]);
            assert(s.drop_first().drop_first().drop_first() =~= Seq::<ChannelModel>::empty());
            lemma_channel_bytes_len(m.x, pos);
            let szx = channel_size(m.x, pos);
            lemma_channel_bytes_len(m.y, pos + szx);
            let szy = channel_size(m.y, pos + szx);
            let cbx = channel_bytes(m.x, pos);
            let cby = channel_bytes(m.y, pos + szx);
            let cbz = channel_bytes(m.z, pos + szx + szy);
            assert(payload_bytes(s, pos) == cbx + (cby + (cbz + Seq::<u8>::empty())));
            assert(((base + cbx) + cby) + cbz =~= base + (cbx + (cby + (cbz
                + Seq::<u8>::empty()))));
        }
    }
}

impl BoneAnim {
    /// How many channels this animation flattens to: three or six.
    pub fn set_count(&self) -> (r: usize)
        ensures
            r == anim_channels(self.model()).len(),
    {
        match self {
            BoneAnim::Rotation(_) => 3,
            BoneAnim::Position(_) => 3,
            _ => 6,
        }
    }

    /// Whether every channel fits its 16-bit key-count field.
    pub fn keys_ok(&self) -> (r: bool)
        ensures
            r == anim_keys_ok(self.model()),
    {
        match self {
            BoneAnim::Rotation(v) => v.keys_ok(),
            BoneAnim::Type1(a0, a1) => a0.keys_ok() && a1.keys_ok(),
            BoneAnim::Position(v) => v.keys_ok(),
            BoneAnim::PositionRotation { position, rotation } => position.keys_ok()
                && rotation.keys_ok(),
            BoneAnim::RotationIK { target, rotation } => target.keys_ok() && rotation.keys_ok(),
            BoneAnim::ArmIK { target, rotation } => target.keys_ok() && rotation.keys_ok(),
            BoneAnim::PositionIKRotation { position, target } => position.keys_ok()
                && target.keys_ok(),
        }
    }

    /// The 2-bit tag codes of this animation's channels, in encode order.
    pub fn get_bits(&self) -> (r: Vec<u8>)
        ensures
            r@ == anim_channels(self.model()).map_values(
                |c: ChannelModel| tag_code(channel_set_type(c)),
            ),
    {
        let mut r: Vec<u8>;
        match self {
            BoneAnim::Rotation(v) => {
                r = v.get_bits();
            },
            BoneAnim::Position(v) => {
                r = v.get_bits();
            },
            BoneAnim::Type1(a0, a1) => {
                r = a0.get_bits();
                let mut r2 = a1.get_bits();
                r.append(&mut r2);
            },
            BoneAnim::PositionRotation { position, rotation } => {
                r = position.get_bits();
                let mut r2 = rotation.get_bits();
                r.append(&mut r2);
            },
            BoneAnim::RotationIK { target, rotation } => {
                r = target.get_bits();
                let mut r2 = rotation.get_bits();
                r.append(&mut r2);
            },
            BoneAnim::ArmIK { target, rotation } => {
                r = target.get_bits();
                let mut r2 = rotation.get_bits();
                r.append(&mut r2);
            },
            BoneAnim::PositionIKRotation { position, target } => {
                r = position.get_bits();
                let mut r2 = target.get_bits();
                r.append(&mut r2);
            },
        }
        proof {
            assert(r@ =~= anim_channels(self.model()).map_values(
                |c: ChannelModel| tag_code(channel_set_type(c)),
            ));
        }
        r
    }

    /// The largest frame index among this animation's channels, or 0.
    pub fn get_max_keyframe(&self) -> (r: u16)
        ensures
            r == sets_max_frame(anim_channels(self.model())),
    {
        match self {
            BoneAnim::Rotation(v) => v.get_max_keyframe(),
            BoneAnim::Position(v) => v.get_max_keyframe(),
            BoneAnim::Type1(a0, a1) => {
                let m0: u16 = a0.get_max_keyframe();
                let m1: u16 = a1.get_max_keyframe();
                proof {
                    lemma_sets_max_app(
                        vec3_channels(a0.model()),
                        vec3_channels(a1.model()),
                    );
                }
                if m0 > m1 {
                    m0
                } else {
                    m1
                }
            },
            BoneAnim::PositionRotation { position, rotation } => {
                let m0: u16 = position.get_max_keyframe();
                let m1: u16 = rotation.get_max_keyframe();
                proof {
                    lemma_sets_max_app(
                        vec3_channels(position.model()),
                        vec3_channels(rotation.model()),
                    );
                }
                if m0 > m1 {
                    m0
                } else {
                    m1
                }
            },
            BoneAnim::RotationIK { target, rotation } => {
                let m0: u16 = target.get_max_keyframe();
                let m1: u16 = rotation.get_max_keyframe();
                proof {
                    lemma_sets_max_app(
                        vec3_channels(target.model()),
                        vec3_channels(rotation.model()),
                    );
                }
                if m0 > m1 {
                    m0
                } else {
                    m1
                }
            },
            BoneAnim::ArmIK { target, rotation } => {
                let m0: u16 = target.get_max_keyframe();
                let m1: u16 = rotation.get_max_keyframe();
                proof {
                    lemma_sets_max_app(
                        vec3_channels(target.model()),
                        vec3_channels(rotation.model()),
                    );
                }
                if m0 > m1 {
                    m0
                } else {
                    m1
                }
            },
            BoneAnim::PositionIKRotation { position, target } => {
                let m0: u16 = position.get_max_keyframe();
                let m1: u16 = target.get_max_keyframe();
                proof {
                    lemma_sets_max_app(
                        vec3_channels(position.model()),
                        vec3_channels(target.model()),
                    );
                }
                if m0 > m1 {
                    m0
                } else {
                    m1
                }
            },
        }
    }

    /// This animation's channels as a flat list, in encode order.
    pub fn sets(self) -> (r: Vec<FrameData>)
        ensures
            r@.map_values(|c: FrameData| c.model()) == anim_channels(self.model()),
    {
        let ghost m = self.model();
        let mut r: Vec<FrameData> = Vec::new();
        match self {
            BoneAnim::Rotation(v) => {
                r.push(v.x);
                r.push(v.y);
                r.push(v.z);
            },
            BoneAnim::Position(v) => {
                r.push(v.x);
                r.push(v.y);
                r.push(v.z);
            },
            BoneAnim::Type1(a0, a1) => {
                r.push(a0.x);
                r.push(a0.y);
                r.push(a0.z);
                r.push(a1.x);
                r.push(a1.y);
                r.push(a1.z);
            },
            BoneAnim::PositionRotation { position, rotation } => {
                r.push(position.x);
                r.push(position.y);
                r.push(position.z);
                r.push(rotation.x);
                r.push(rotation.y);
                r.push(rotation.z);
            },
            BoneAnim::RotationIK { target, rotation } => {
                r.push(target.x);
                r.push(target.y);
                r.push(target.z);
                r.push(rotation.x);
                r.push(rotation.y);
                r.push(rotation.z);
            },
            BoneAnim::ArmIK { target, rotation } => {
                r.push(target.x);
                r.push(target.y);
                r.push(target.z);
                r.push(rotation.x);
                r.push(rotation.y);
                r.push(rotation.z);
            },
            BoneAnim::PositionIKRotation { position, target } => {
                r.push(position.x);
                r.push(position.y);
                r.push(position.z);
                r.push(target.x);
                r.push(target.y);
                r.push(target.z);
            },
        }
        proof {
            assert(r@.map_values(|c: FrameData| c.model()) =~= anim_channels(m));
        }
        r
    }

    /// Appends this animation's payload bytes: its channels in encode
    /// order, each at the position the previous ones reach.
    #[verifier::rlimit(100)]
    pub fn write(&self, out: &mut Vec<u8>)
        requires
            anim_keys_ok(self.model()),
        ensures
            final(out)@ == old(out)@ + payload_bytes(
                anim_channels(self.model()),
                old(out)@.len() as int,
            ),
    {
        let ghost base = out@;
        let ghost pos = out@.len() as int;
        let ghost m = self.model();
        match self {
            BoneAnim::Rotation(v) => {
                v.write(out);
            },
            BoneAnim::Position(v) => {
                v.write(out);
            },
            BoneAnim::Type1(a0, a1) => {
                a0.write(out);
                a1.write(out);
                proof {
                    lemma_payload_app(vec3_channels(a0.model()), vec3_channels(a1.model()), pos);
                    assert((base + payload_bytes(vec3_channels(a0.model()), pos)) + payload_bytes(
                        vec3_channels(a1.model()),
                        pos + payload_bytes(vec3_channels(a0.model()), pos).len(),
                    ) =~= base + payload_bytes(anim_channels(m), pos));
                }
            },
            BoneAnim::PositionRotation { position, rotation } => {
                position.write(out);
                rotation.write(out);
                proof {
                    lemma_payload_app(
                        vec3_channels(position.model()),
                        vec3_channels(rotation.model()),
                        pos,
                    );
                    assert((base + payload_bytes(vec3_channels(position.model()), pos))
                        + payload_bytes(
                        vec3_channels(rotation.model()),
                        pos + payload_bytes(vec3_channels(position.model()), pos).len(),
                    ) =~= base + payload_bytes(anim_channels(m), pos));
                }
            },
            BoneAnim::RotationIK { target, rotation } => {
                target.write(out);
                rotation.write(out);
                proof {
                    lemma_payload_app(
                        vec3_channels(target.model()),
                        vec3_channels(rotation.model()),
                        pos,
                    );
                    assert((base + payload_bytes(vec3_channels(target.model()), pos))
                        + payload_bytes(
                        vec3_channels(rotation.model()),
                        pos + payload_bytes(vec3_channels(target.model()), pos).len(),
                    ) =~= base + payload_bytes(anim_channels(m), pos));
                }
            },
            BoneAnim::ArmIK { target, rotation } => {
                target.write(out);
                rotation.write(out);
                proof {
                    lemma_payload_app(
                        vec3_channels(target.model()),
                        vec3_channels(rotation.model()),
                        pos,
                    );
                    assert((base + payload_bytes(vec3_channels(target.model()), pos))
                        + payload_bytes(
                        vec3_channels(rotation.model()),
                        pos + payload_bytes(vec3_channels(target.model()), pos).len(),
                    ) =~= base + payload_bytes(anim_channels(m), pos));
                }
            },
            BoneAnim::PositionIKRotation { position, target } => {
                position.write(out);
                target.write(out);
                proof {
                    lemma_payload_app(
                        vec3_channels(position.model()),
                        vec3_channels(target.model()),
                        pos,
                    );
                    assert((base + payload_bytes(vec3_channels(position.model()), pos))
                        + payload_bytes(
                        vec3_channels(target.model()),
                        pos + payload_bytes(vec3_channels(position.model()), pos).len(),
                    ) =~= base + payload_bytes(anim_channels(m), pos));
                }
            },
        }
    }
}

/// Every channel of one entry fits its 16-bit key-count field.
pub open spec fn entry_keys_ok(p: (usize, Option<BoneAnimModel>)) -> bool {
    match p.1 {
        None => true,
        Some(a) => anim_keys_ok(a),
    }
}

/// The total byte length of an encoded structured record.
pub open spec fn qualified_record_size(q: Seq<(usize, Option<BoneAnimModel>)>) -> int {
    crate::write::record_bones_off(qualified_channels(q)) + 2 * q.len()
}

/// The full encoded record of a structured motion. The layout is the flat
/// record's; the count field reserves one extra slot for the mandatory
/// trailing terminator channel on top of the flattened channel count.
pub open spec fn qualified_record_bytes(q: Seq<(usize, Option<BoneAnimModel>)>) -> Seq<u8> {
    let ch = qualified_channels(q);
    let set_off = crate::write::record_set_off(ch);
    let bones_off = crate::write::record_bones_off(ch);
    let cur = 36 + crate::write::record_tag_bytes(ch).len() as int;
    le32_bytes(32) + le32_bytes(36) + le32_bytes(set_off as u32) + le32_bytes(bones_off as u32)
        + zeros(16) + le16_bytes((ch.len() + 2 + 0x3FFF) as u16) + le16_bytes(
        (sets_max_frame(ch) + 1) as u16,
    ) + crate::write::record_tag_bytes(ch) + zeros((cur % 6) as nat) + payload_bytes(ch, set_off)
        + bones_bytes(qualified_bones(q))
}

/// The first reason, if any, for which a structured motion cannot be
/// encoded.
pub open spec fn spec_qualified_write_err(q: Seq<(usize, Option<BoneAnimModel>)>) -> Option<
    WriteError,
> {
    let ch = qualified_channels(q);
    if ch.len() + 2 >= 0x3FFF {
        Some(WriteError::TooManyChannels)
    } else if exists|j: int| 0 <= j < ch.len() && chan_key_count(#[trigger] ch[j]) > 0xFFFF {
        Some(WriteError::KeyCountOverflow)
    } else if sets_max_frame(ch) + 1 > 0xFFFF {
        Some(WriteError::FrameIndexOverflow)
    } else if exists|i: int| 0 <= i < q.len() && (#[trigger] q[i]).0 > 0xFFFF {
        Some(WriteError::BoneIndexOverflow)
    } else if qualified_record_size(q) > 0xFFFF_FFFF {
        Some(WriteError::RecordTooLarge)
    } else {
        None
    }
}

proof fn lemma_flatten_take_le(q: Seq<(usize, Option<BoneAnimModel>)>, i: int)
    requires
        0 <= i <= q.len(),
    ensures
        qualified_channels(q.take(i)).len() <= qualified_channels(q).len(),
    decreases q.len() - i,
{
    if i == q.len() {
        assert(q.take(i) =~= q);
    } else {
        lemma_qualified_channels_snoc(q, i);
        lemma_flatten_take_le(q, i + 1);
    }
}

/// The flattened channels of a prefix of entries are a prefix of the
/// flattened channels of the whole.
proof fn lemma_flatten_prefix(q: Seq<(usize, Option<BoneAnimModel>)>, i: int)
    requires
        0 <= i <= q.len(),
    ensures
        qualified_channels(q.take(i)).len() <= qualified_channels(q).len(),
        qualified_channels(q).take(qualified_channels(q.take(i)).len() as int) == qualified_channels(
            q.take(i),
        ),
    decreases q.len() - i,
{
    let f = qualified_channels(q);
    if i == q.len() {
        assert(q.take(i) =~= q);
        assert(f.take(f.len() as int) =~= f);
    } else {
        lemma_qualified_channels_snoc(q, i);
        lemma_flatten_prefix(q, i + 1);
        let li = qualified_channels(q.take(i)).len() as int;
        let li1 = qualified_channels(q.take(i + 1)).len() as int;
        assert(f.take(li) =~= f.take(li1).take(li));
        assert(f.take(li1).take(li) =~= qualified_channels(q.take(i)));
    }
}

/// Per-entry key-count checks mean the same as per-channel checks over the
/// flattened sequence.
proof fn lemma_flatten_keys_iff(q: Seq<(usize, Option<BoneAnimModel>)>)
    ensures
        (forall|i: int| 0 <= i < q.len() ==> entry_keys_ok(#[trigger] q[i])) <==> (forall|j: int|
            0 <= j < qualified_channels(q).len() ==> chan_key_count(
                #[trigger] qualified_channels(q)[j],
            ) <= 0xFFFF),
    decreases q.len(),
{
    let f = qualified_channels(q);
    if q.len() == 0 {
    } else {
        let rest = q.drop_first();
        lemma_flatten_keys_iff(rest);
        let e0 = entry_channels(q[0]);
        let fr = qualified_channels(rest);
        assert(f == e0 + fr);
        lemma_anim_keys_ok_entry(q[0]);
        if (forall|i: int| 0 <= i < q.len() ==> entry_keys_ok(#[trigger] q[i])) {
            assert(forall|i: int| 0 <= i < rest.len() ==> entry_keys_ok(#[trigger] rest[i]));
            assert forall|j: int| 0 <= j < f.len() implies chan_key_count(#[trigger] f[j])
                <= 0xFFFF by {
                if j < e0.len() {
                    assert(f[j] == e0[j]);
                } else {
                    assert(f[j] == fr[j - e0.len()]);
                }
            }
        }
        if (forall|j: int| 0 <= j < f.len() ==> chan_key_count(#[trigger] f[j]) <= 0xFFFF) {
            assert forall|j: int| 0 <= j < e0.len() implies chan_key_count(#[trigger] e0[j])
                <= 0xFFFF by {
                assert(e0[j] == f[j]);
            }
            assert forall|j: int| 0 <= j < fr.len() implies chan_key_count(#[trigger] fr[j])
                <= 0xFFFF by {
                assert(fr[j] == f[e0.len() + j]);
            }
            assert forall|i: int| 0 <= i < q.len() implies entry_keys_ok(#[trigger] q[i]) by {
                if i > 0 {
                    assert(q[i] == rest[i - 1]);
                }
            }
        }
    }
}

/// One entry's channels all fit their key-count fields exactly when the
/// entry check says so.
proof fn lemma_anim_keys_ok_entry(p: (usize, Option<BoneAnimModel>))
    ensures
        entry_keys_ok(p) <==> (forall|j: int|
            0 <= j < entry_channels(p).len() ==> chan_key_count(#[trigger] entry_channels(p)[j])
                <= 0xFFFF),
{
    match p.1 {
        None => {
            assert(entry_channels(p).len() == 0);
            assert(entry_keys_ok(p));
        },
        Some(a) => {
            lemma_anim_keys_ok(a);
            assert(entry_channels(p) == anim_channels(a));
            assert(entry_keys_ok(p) == anim_keys_ok(a));
        },
    }
}

impl QualifiedMotion {
    /// The packed tag bytes of this motion's flattened channels.
    pub fn get_bits(&self) -> (r: Vec<u8>)
        ensures
            r@ == spec_pack_tags(
                qualified_channels(self.model()).map_values(
                    |c: ChannelModel| channel_set_type(c),
                ),
            ),
    {
        let ghost q = self.model();
        let n: usize = self.anims.len();
        let mut ts: Vec<SetType> = Vec::new();
        let mut i: usize = 0;
        proof {
            assert(q.take(0) =~= Seq::<(usize, Option<BoneAnimModel>)>::empty());
            assert(ts@.map_values(|t: SetType| t) =~= ts@);
            assert(qualified_channels(q.take(0)).map_values(
                |c: ChannelModel| channel_set_type(c),
            ) =~= Seq::<SetType>::empty());
        }
        while i < n
            invariant
                q == self.model(),
                n == self.anims@.len(),
                i <= n,
                ts@ == qualified_channels(q.take(i as int)).map_values(
                    |c: ChannelModel| channel_set_type(c),
                ),
            decreases n - i,
        {
            proof {
                lemma_qualified_channels_snoc(q, i as int);
                assert(q[i as int] == anim_entry_model(self.anims@[i as int]));
            }
            match &self.anims[i].1 {
                Some(a) => {
                    let codes: Vec<u8> = a.get_bits();
                    let m: usize = codes.len();
                    let ghost ach = anim_channels(a.model());
                    let mut k: usize = 0;
                    while k < m
                        invariant
                            m == codes@.len(),
                            k <= m,
                            codes@ == ach.map_values(
                                |c: ChannelModel| tag_code(channel_set_type(c)),
                            ),
                            ts@ == qualified_channels(q.take(i as int)).map_values(
                                |c: ChannelModel| channel_set_type(c),
                            ) + ach.take(k as int).map_values(
                                |c: ChannelModel| channel_set_type(c),
                            ),
                        decreases m - k,
                    {
                        let code: u8 = codes[k];
                        proof {
                            assert(code == tag_code(channel_set_type(ach[k as int])));
                        }
                        let tag: SetType = match SetType::from_bits(code) {
                            Some(t) => t,
                            Option::None => {
                                proof {
                                    assert(false);
                                }
                                SetType::Empty
                            },
                        };
                        ts.push(tag);
                        proof {
                            assert(ts@ =~= qualified_channels(q.take(i as int)).map_values(
                                |c: ChannelModel| channel_set_type(c),
                            ) + ach.take(k + 1).map_values(
                                |c: ChannelModel| channel_set_type(c),
                            ));
                        }
                        k = k + 1;
                    }
                    proof {
                        assert(ach.take(m as int) =~= ach);
                        assert(entry_channels(q[i as int]) == ach);
                        assert(ts@ =~= qualified_channels(q.take(i + 1)).map_values(
                            |c: ChannelModel| channel_set_type(c),
                        ));
                    }
                },
                Option::None => {
                    proof {
                        assert(entry_channels(q[i as int]) =~= Seq::<ChannelModel>::empty());
                        assert(ts@ =~= qualified_channels(q.take(i + 1)).map_values(
                            |c: ChannelModel| channel_set_type(c),
                        ));
                    }
                },
            }
            i = i + 1;
        }
        proof {
            assert(q.take(n as int) =~= q);
        }
        pack_tags(&ts)
    }

    /// Encodes this structured motion.
    ///
    /// The bones' animations flatten into their channels, in field order,
    /// and serialize through the flat record layout; the count field
    /// additionally reserves the mandatory trailing terminator channel.
    /// Succeeds exactly when every field of the layout can hold its value
    /// and the record fits its 32-bit offsets; the bytes returned are the
    /// record layout, byte for byte.
    #[verifier::rlimit(100)]
    pub fn write(&self) -> (r: Result<Vec<u8>, WriteError>)
        ensures
            match r {
                Ok(out) => spec_qualified_write_err(self.model()) is None && out@
                    == qualified_record_bytes(self.model()),
                Err(e) => spec_qualified_write_err(self.model()) == Some(e),
            },
    {
        let ghost q = self.model();
        let ghost ch = qualified_channels(q);
        let n: usize = self.anims.len();
        proof {
            assert(q.len() == n);
            assert(forall|i: int|
                0 <= i < n ==> q[i] == anim_entry_model(#[trigger] self.anims@[i]));
            assert(q.take(0) =~= Seq::<(usize, Option<BoneAnimModel>)>::empty());
        }
        // Count the flattened channels; the 16-bit count field must hold
        // the total plus the terminator slot and the version marker.
        let mut sum: usize = 0;
        let mut i: usize = 0;
        while i < n
            invariant
                q == self.model(),
                n == self.anims@.len(),
                q.len() == n,
                i <= n,
                sum == qualified_channels(q.take(i as int)).len(),
                sum + 2 < 0x3FFF,
            decreases n - i,
        {
            proof {
                lemma_qualified_channels_snoc(q, i as int);
                assert(q[i as int] == anim_entry_model(self.anims@[i as int]));
            }
            let c: usize = match &self.anims[i].1 {
                Some(a) => a.set_count(),
                Option::None => {
                    proof {
                        assert(entry_channels(q[i as int]) =~= Seq::<ChannelModel>::empty());
                    }
                    0
                },
            };
            proof {
                assert(c == entry_channels(q[i as int]).len());
            }
            if sum + c + 2 >= 0x3FFF {
                proof {
                    lemma_flatten_take_le(q, i + 1);
                }
                return Err(WriteError::TooManyChannels);
            }
            sum = sum + c;
            i = i + 1;
        }
        proof {
            assert(q.take(n as int) =~= q);
            assert(sum == ch.len());
        }
        // Every keyed channel must fit its 16-bit key-count field.
        let mut i: usize = 0;
        while i < n
            invariant
                q == self.model(),
                n == self.anims@.len(),
                q.len() == n,
                sum == ch.len(),
                ch == qualified_channels(q),
                sum + 2 < 0x3FFF,
                i <= n,
                forall|j: int| 0 <= j < i ==> entry_keys_ok(#[trigger] q[j]),
            decreases n - i,
        {
            proof {
                assert(q[i as int] == anim_entry_model(self.anims@[i as int]));
            }
            let ok: bool = match &self.anims[i].1 {
                Some(a) => a.keys_ok(),
                Option::None => true,
            };
            if !ok {
                proof {
                    lemma_anim_keys_ok_entry(q[i as int]);
                    let j0 = choose|j: int|
                        0 <= j < entry_channels(q[i as int]).len() && chan_key_count(
                            #[trigger] entry_channels(q[i as int])[j],
                        ) > 0xFFFF;
                    lemma_qualified_channels_snoc(q, i as int);
                    lemma_flatten_prefix(q, i + 1);
                    let li = qualified_channels(q.take(i as int)).len() as int;
                    let li1 = qualified_channels(q.take(i + 1)).len() as int;
                    assert(ch.take(li1) == qualified_channels(q.take(i + 1)));
                    assert(ch.take(li1)[li + j0] == entry_channels(q[i as int])[j0]);
                    assert(ch[li + j0] == entry_channels(q[i as int])[j0]);
                    assert(chan_key_count(ch[li + j0]) > 0xFFFF);
                }
                return Err(WriteError::KeyCountOverflow);
            }
            i = i + 1;
        }
        proof {
            lemma_flatten_keys_iff(q);
            assert(forall|j: int|
                0 <= j < ch.len() ==> chan_key_count(#[trigger] ch[j]) <= 0xFFFF);
        }
        // The largest frame index must leave room for the plus-one field.
        let maxf: u16 = self.get_max_keyframe();
        if maxf == 0xFFFF {
            return Err(WriteError::FrameIndexOverflow);
        }
        // Every bone index must fit its 16-bit slot.
        let mut i: usize = 0;
        while i < n
            invariant
                q == self.model(),
                n == self.anims@.len(),
                q.len() == n,
                sum == ch.len(),
                ch == qualified_channels(q),
                sum + 2 < 0x3FFF,
                forall|j: int| 0 <= j < ch.len() ==> chan_key_count(#[trigger] ch[j]) <= 0xFFFF,
                maxf == sets_max_frame(ch),
                maxf < 0xFFFF,
                i <= n,
                forall|j: int| 0 <= j < i ==> (#[trigger] q[j]).0 <= 0xFFFF,
            decreases n - i,
        {
            proof {
                assert(q[i as int] == anim_entry_model(self.anims@[i as int]));
            }
            if self.anims[i].0 > 0xFFFF {
                return Err(WriteError::BoneIndexOverflow);
            }
            i = i + 1;
        }
        // Lay the payload down at its final offset to learn the offsets.
        let tag_len: usize = sum / 4 + if sum % 4 == 0 { 0 } else { 1 };
        let cur: usize = 36 + tag_len;
        let set_off: usize = cur + cur % 6;
        proof {
            assert(tag_len == crate::write::record_tag_bytes(ch).len());
            assert(set_off == crate::write::record_set_off(ch));
        }
        let mut body: Vec<u8> = Vec::new();
        push_zeros(&mut body, set_off);
        proof {
            assert(body@ =~= zeros(set_off as nat) + payload_bytes(
                qualified_channels(q.take(0)),
                set_off as int,
            ));
        }
        let mut i: usize = 0;
        while i < n
            invariant
                q == self.model(),
                n == self.anims@.len(),
                q.len() == n,
                forall|j: int| 0 <= j < n ==> entry_keys_ok(#[trigger] q[j]),
                set_off == crate::write::record_set_off(ch),
                ch == qualified_channels(q),
                i <= n,
                body@ == zeros(set_off as nat) + payload_bytes(
                    qualified_channels(q.take(i as int)),
                    set_off as int,
                ),
                body@.len() == set_off + payload_bytes(
                    qualified_channels(q.take(i as int)),
                    set_off as int,
                ).len(),
            decreases n - i,
        {
            proof {
                lemma_qualified_channels_snoc(q, i as int);
                assert(q[i as int] == anim_entry_model(self.anims@[i as int]));
                lemma_payload_app(
                    qualified_channels(q.take(i as int)),
                    entry_channels(q[i as int]),
                    set_off as int,
                );
            }
            match &self.anims[i].1 {
                Some(a) => {
                    proof {
                        lemma_anim_keys_ok_entry(q[i as int]);
                        lemma_anim_keys_ok(a.model());
                    }
                    a.write(&mut body);
                    proof {
                        assert((zeros(set_off as nat) + payload_bytes(
                            qualified_channels(q.take(i as int)),
                            set_off as int,
                        )) + payload_bytes(
                            anim_channels(a.model()),
                            set_off + payload_bytes(
                                qualified_channels(q.take(i as int)),
                                set_off as int,
                            ).len(),
                        ) =~= zeros(set_off as nat) + payload_bytes(
                            qualified_channels(q.take(i + 1)),
                            set_off as int,
                        ));
                    }
                },
                Option::None => {
                    proof {
                        assert(entry_channels(q[i as int]) =~= Seq::<ChannelModel>::empty());
                        assert(qualified_channels(q.take(i + 1)) == qualified_channels(
                            q.take(i as int),
                        ) + Seq::<ChannelModel>::empty());
                        assert(qualified_channels(q.take(i + 1)) =~= qualified_channels(
                            q.take(i as int),
                        ));
                    }
                },
            }
            i = i + 1;
        }
        proof {
            assert(q.take(n as int) =~= q);
        }
        let bones_off: usize = body.len();
        proof {
            assert(bones_off == crate::write::record_bones_off(ch));
        }
        // The offsets and the total size must fit their 32-bit fields.
        if bones_off as u64 > 0xFFFF_FFFF || ((0xFFFF_FFFFu64 - bones_off as u64) / 2) < (
        n as u64) {
            proof {
                if bones_off as u64 <= 0xFFFF_FFFF {
                    assert(bones_off + 2 * (n as u64) > 0xFFFF_FFFF) by (nonlinear_arith)
                        requires
                            ((0xFFFF_FFFFu64 - bones_off as u64) / 2) < n as u64,
                            bones_off as u64 <= 0xFFFF_FFFF,
                    ;
                }
            }
            return Err(WriteError::RecordTooLarge);
        }
        proof {
            assert(bones_off + 2 * (n as u64) <= 0xFFFF_FFFF) by (nonlinear_arith)
                requires
                    ((0xFFFF_FFFFu64 - bones_off as u64) / 2) >= n as u64,
                    bones_off as u64 <= 0xFFFF_FFFF,
            ;
            assert(qualified_record_size(q) <= 0xFFFF_FFFF);
            assert(spec_qualified_write_err(q) is None);
        }
        // Emit the record.
        let mut out: Vec<u8> = Vec::new();
        push_u32(&mut out, 32);
        proof {
            assert(out@ =~= le32_bytes(32));
        }
        push_u32(&mut out, 36);
        push_u32(&mut out, set_off as u32);
        push_u32(&mut out, bones_off as u32);
        push_zeros(&mut out, 16);
        push_u16(&mut out, sum as u16 + 2 + 0x3FFF);
        proof {
            assert(sum as u16 + 2 + 0x3FFF == (ch.len() + 2 + 0x3FFF) as u16);
        }
        push_u16(&mut out, maxf + 1);
        proof {
            assert(maxf + 1 == (sets_max_frame(ch) + 1) as u16);
        }
        let mut tb: Vec<u8> = self.get_bits();
        out.append(&mut tb);
        push_zeros(&mut out, cur % 6);
        let ghost header = le32_bytes(32) + le32_bytes(36) + le32_bytes(set_off as u32)
            + le32_bytes(bones_off as u32) + zeros(16) + le16_bytes((ch.len() + 2 + 0x3FFF) as u16)
            + le16_bytes((sets_max_frame(ch) + 1) as u16) + crate::write::record_tag_bytes(ch)
            + zeros(((36 + crate::write::record_tag_bytes(ch).len() as int) % 6) as nat);
        proof {
            assert(out@ == header);
        }
        // Copy the payload out of the measuring buffer.
        let mut j: usize = set_off;
        while j < bones_off
            invariant
                set_off <= j <= bones_off,
                bones_off == body@.len(),
                out@ == header + body@.subrange(set_off as int, j as int),
            decreases bones_off - j,
        {
            let b: u8 = body[j];
            out.push(b);
            proof {
                assert((header + body@.subrange(set_off as int, j as int)).push(b) =~= header
                    + body@.subrange(set_off as int, j + 1));
            }
            j = j + 1;
        }
        proof {
            assert(body@.subrange(set_off as int, bones_off as int) =~= payload_bytes(
                ch,
                set_off as int,
            ));
        }
        let ghost with_payload = header + payload_bytes(ch, set_off as int);
        // The bone-index array: every entry's index, animated or not.
        let ghost gb = qualified_bones(q);
        proof {
            assert(gb.take(0) =~= Seq::<usize>::empty());
            assert(bones_bytes(gb.take(0)) =~= Seq::<u8>::empty());
            assert(with_payload + Seq::<u8>::empty() =~= with_payload);
        }
        let mut i: usize = 0;
        while i < n
            invariant
                q == self.model(),
                n == self.anims@.len(),
                q.len() == n,
                gb == qualified_bones(q),
                forall|j2: int| 0 <= j2 < n ==> (#[trigger] q[j2]).0 <= 0xFFFF,
                i <= n,
                out@ == with_payload + bones_bytes(gb.take(i as int)),
            decreases n - i,
        {
            proof {
                assert(q[i as int] == anim_entry_model(self.anims@[i as int]));
                assert(gb[i as int] == q[i as int].0);
                crate::write::lemma_bones_snoc(gb, i as int);
            }
            push_u16(&mut out, self.anims[i].0 as u16);
            proof {
                assert((with_payload + bones_bytes(gb.take(i as int))) + le16_bytes(
                    gb[i as int] as u16,
                ) =~= with_payload + bones_bytes(gb.take(i + 1)));
            }
            i = i + 1;
        }
        proof {
            assert(gb.take(n as int) =~= gb);
            assert(out@ =~= qualified_record_bytes(q));
        }
        Ok(out)
    }

    /// The largest frame index over all flattened channels, or 0.
    fn get_max_keyframe(&self) -> (r: u16)
        ensures
            r == sets_max_frame(qualified_channels(self.model())),
    {
        let ghost q = self.model();
        let n: usize = self.anims.len();
        let mut r: u16 = 0;
        let mut i: usize = 0;
        proof {
            assert(q.take(0) =~= Seq::<(usize, Option<BoneAnimModel>)>::empty());
        }
        while i < n
            invariant
                q == self.model(),
                n == self.anims@.len(),
                i <= n,
                r == sets_max_frame(qualified_channels(q.take(i as int))),
            decreases n - i,
        {
            proof {
                lemma_qualified_channels_snoc(q, i as int);
                assert(q[i as int] == anim_entry_model(self.anims@[i as int]));
                lemma_sets_max_app(
                    qualified_channels(q.take(i as int)),
                    entry_channels(q[i as int]),
                );
            }
            match &self.anims[i].1 {
                Some(a) => {
                    let am: u16 = a.get_max_keyframe();
                    if am > r {
                        r = am;
                    }
                },
                Option::None => {
                    proof {
                        assert(entry_channels(q[i as int]) =~= Seq::<ChannelModel>::empty());
                    }
                },
            }
            i = i + 1;
        }
        proof {
            assert(q.take(n as int) =~= q);
        }
        r
    }
}

} // verus!
