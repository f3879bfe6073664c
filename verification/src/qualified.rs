//! The qualification engine and canonical ordering.
//!
//! A flat record pairs each bone index with three consecutive channels, but
//! how many channels a bone really owns — and what they mean — is decided
//! by an externally supplied bone-type taxonomy. Qualification walks the
//! bone indices in order, resolves each index to a name through the
//! bone-name table and the name to a type code through the bone-type
//! table, and consumes exactly the channels that type requires (three or
//! six) off the front of the flat channel queue. A bone whose name resolves
//! nowhere is kept with no animation and consumes nothing. Canonical
//! ordering then stable-sorts the result by an externally supplied
//! name-to-rank table; bones without a rank sort last.

use vstd::prelude::*;
use crate::ChannelModel;
use crate::FrameData;
use crate::Motion;
use crate::MotionModel;

verus! {

/// A single bone's triple of channels: x, y and z of a position or a
/// rotation, the meaning decided by the owning animation variant.
#[derive(Debug, Clone, PartialEq)]
pub struct Vec3 {
    pub x: FrameData,
    pub y: FrameData,
    pub z: FrameData,
}

/// One bone's structured animation, the variant chosen by the bone's
/// externally supplied type code. The field order is the encode order:
/// the three IK variants serialize their first field first.
#[derive(Debug, Clone, PartialEq)]
pub enum BoneAnim {
    Rotation(Vec3),
    Type1(Vec3, Vec3),
    Position(Vec3),
    PositionRotation { position: Vec3, rotation: Vec3 },
    RotationIK { target: Vec3, rotation: Vec3 },
    ArmIK { target: Vec3, rotation: Vec3 },
    PositionIKRotation { position: Vec3, target: Vec3 },
}

/// A structured motion: each bone index with its animation, in order.
/// `None` marks a bone intentionally present with no animation.
#[derive(Debug, Clone, PartialEq)]
pub struct QualifiedMotion {
    pub anims: Vec<(usize, Option<BoneAnim>)>,
}

/// A bone's type code, as the external bone database classifies it.
/// The code decides which [`BoneAnim`] variant the bone's channels form.
#[derive(Debug, Clone, Copy, PartialEq, Eq, Structural)]
pub enum BoneType {
    Rotation,
    Type1,
    Position,
    Type3,
    Type4,
    Type5,
    Type6,
}

/// The bone-name table: an ordered list of bone names, indexed by the bone
/// indices a record carries.
pub struct BoneNameTable {
    pub names: Vec<String>,
}

/// The bone-type table: bone name to type code, first match winning.
pub struct BoneTypeTable {
    pub entries: Vec<(String, BoneType)>,
}

/// The canonical-rank table: bone name to target-engine rank, first match
/// winning; a name without a rank sorts last (rank 255).
pub struct BoneRankTable {
    pub entries: Vec<(String, u8)>,
}

/// Specification-level value of a bone's channel triple.
pub struct Vec3Model {
    pub x: ChannelModel,
    pub y: ChannelModel,
    pub z: ChannelModel,
}

/// Specification-level value of a bone's animation.
pub enum BoneAnimModel {
    Rotation(Vec3Model),
    Type1(Vec3Model, Vec3Model),
    Position(Vec3Model),
    PositionRotation { position: Vec3Model, rotation: Vec3Model },
    RotationIK { target: Vec3Model, rotation: Vec3Model },
    ArmIK { target: Vec3Model, rotation: Vec3Model },
    PositionIKRotation { position: Vec3Model, target: Vec3Model },
}

impl Vec3 {
    /// The mathematical value of this channel triple.
    pub open spec fn model(self) -> Vec3Model {
        Vec3Model { x: self.x.model(), y: self.y.model(), z: self.z.model() }
    }
}

impl BoneAnim {
    /// The mathematical value of this animation.
    pub open spec fn model(self) -> BoneAnimModel {
        match self {
            BoneAnim::Rotation(v) => BoneAnimModel::Rotation(v.model()),
            BoneAnim::Type1(a, b) => BoneAnimModel::Type1(a.model(), b.model()),
            BoneAnim::Position(v) => BoneAnimModel::Position(v.model()),
            BoneAnim::PositionRotation { position, rotation } => BoneAnimModel::PositionRotation {
                position: position.model(),
                rotation: rotation.model(),
            },
            BoneAnim::RotationIK { target, rotation } => BoneAnimModel::RotationIK {
                target: target.model(),
                rotation: rotation.model(),
            },
            BoneAnim::ArmIK { target, rotation } => BoneAnimModel::ArmIK {
                target: target.model(),
                rotation: rotation.model(),
            },
            BoneAnim::PositionIKRotation { position, target } => BoneAnimModel::PositionIKRotation {
                position: position.model(),
                target: target.model(),
            },
        }
    }
}

/// The mathematical value of one entry of a structured motion.
pub open spec fn anim_entry_model(p: (usize, Option<BoneAnim>)) -> (usize, Option<BoneAnimModel>) {
    (
        p.0,
        match p.1 {
            Some(a) => Some(a.model()),
            None => None,
        },
    )
}

impl QualifiedMotion {
    /// The mathematical value of this structured motion.
    pub open spec fn model(self) -> Seq<(usize, Option<BoneAnimModel>)> {
        self.anims@.map_values(|p: (usize, Option<BoneAnim>)| anim_entry_model(p))
    }
}

/// A channel that a pose snapshot can collapse: a keyed channel must hold
/// at least one keyframe for its first value to exist.
pub open spec fn poseable(c: ChannelModel) -> bool {
    match c {
        ChannelModel::Linear(ks) => ks.len() > 0,
        ChannelModel::Smooth(ks) => ks.len() > 0,
        _ => true,
    }
}

/// A channel collapsed to a single pose: a keyed channel keeps only its
/// first keyframe's value.
pub open spec fn spec_poseify(c: ChannelModel) -> ChannelModel {
    match c {
        ChannelModel::Empty => ChannelModel::Empty,
        ChannelModel::Pose(v) => ChannelModel::Pose(v),
        ChannelModel::Linear(ks) => ChannelModel::Pose(ks[0].value),
        ChannelModel::Smooth(ks) => ChannelModel::Pose(ks[0].keyframe.value),
    }
}

fn poseify(c: &FrameData) -> (r: FrameData)
    requires
        poseable(c.model()),
    ensures
        r.model() == spec_poseify(c.model()),
{
    match c {
        FrameData::Empty => FrameData::Empty,
        FrameData::Pose(a) => FrameData::Pose(*a),
        FrameData::Linear(l) => FrameData::Pose(l[0].value),
        FrameData::Smooth(l) => FrameData::Pose(l[0].keyframe.value),
    }
}

impl Default for Vec3 {
    /// The empty channel triple.
    fn default() -> (r: Vec3)
        ensures
            r.model() == (Vec3Model {
                x: ChannelModel::Empty,
                y: ChannelModel::Empty,
                z: ChannelModel::Empty,
            }),
    {
        Vec3 { x: FrameData::Empty, y: FrameData::Empty, z: FrameData::Empty }
    }
}

impl Vec3 {
    /// Collapses all three channels to single poses, keeping a keyed
    /// channel's first value: the lossy snapshot used by tooling.
    pub fn to_pose(&mut self)
        requires
            poseable(old(self).model().x),
            poseable(old(self).model().y),
            poseable(old(self).model().z),
        ensures
            final(self).model() == (Vec3Model {
                x: spec_poseify(old(self).model().x),
                y: spec_poseify(old(self).model().y),
                z: spec_poseify(old(self).model().z),
            }),
    {
        self.x = poseify(&self.x);
        self.y = poseify(&self.y);
        self.z = poseify(&self.z);
    }
}

/// How many channels a bone of the given type consumes.
pub open spec fn bone_type_count(t: BoneType) -> int {
    match t {
        BoneType::Rotation => 3,
        BoneType::Position => 3,
        _ => 6,
    }
}

/// The type code a name resolves to: the first match in the bone-type
/// table, or — for two bones the external databases commonly lack — a
/// hardcoded fallback, or nothing.
pub open spec fn spec_lookup_type(entries: Seq<(String, BoneType)>, name: Seq<char>) -> Option<
    BoneType,
>
    decreases entries.len(),
{
    if entries.len() == 0 {
        None
    } else if entries[0].0@ == name {
        Some(entries[0].1)
    } else {
        spec_lookup_type(entries.drop_first(), name)
    }
}

/// The type code a bone index resolves to: its name is looked up in the
/// bone-name table, the name in the bone-type table. The two well-known
/// control bones absent from common databases fall back to hardcoded
/// types; anything else unresolvable yields nothing.
pub open spec fn spec_resolve(
    names: Seq<String>,
    types: Seq<(String, BoneType)>,
    id: usize,
) -> Option<BoneType> {
    if id < names.len() {
        let name = names[id as int]@;
        match spec_lookup_type(types, name) {
            Some(t) => Some(t),
            None => if name == "gblctr"@ {
                Some(BoneType::Position)
            } else if name == "kg_ya_ex"@ {
                Some(BoneType::Rotation)
            } else {
                None
            },
        }
    } else {
        None
    }
}

/// How many channels one bone consumes: its type's count, or zero when it
/// resolves to nothing.
pub open spec fn bone_required(names: Seq<String>, types: Seq<(String, BoneType)>, id: usize) -> int {
    match spec_resolve(names, types, id) {
        Some(t) => bone_type_count(t),
        None => 0,
    }
}

/// How many channels a bone sequence consumes in total.
pub open spec fn spec_required(
    names: Seq<String>,
    types: Seq<(String, BoneType)>,
    bones: Seq<usize>,
) -> int
    decreases bones.len(),
{
    if bones.len() == 0 {
        0int
    } else {
        bone_required(names, types, bones[0]) + spec_required(names, types, bones.drop_first())
    }
}

/// The channel triple starting at `off` in the flat channel sequence.
pub open spec fn vec3_at(sets: Seq<ChannelModel>, off: int) -> Vec3Model {
    Vec3Model { x: sets[off], y: sets[off + 1], z: sets[off + 2] }
}

/// The animation a bone of type `t` forms from the channels at `off`:
/// its first field takes the first triple, its second the next.
pub open spec fn spec_build(t: BoneType, sets: Seq<ChannelModel>, off: int) -> BoneAnimModel {
    match t {
        BoneType::Rotation => BoneAnimModel::Rotation(vec3_at(sets, off)),
        BoneType::Type1 => BoneAnimModel::Type1(vec3_at(sets, off), vec3_at(sets, off + 3)),
        BoneType::Position => BoneAnimModel::Position(vec3_at(sets, off)),
        BoneType::Type3 => BoneAnimModel::PositionRotation {
            position: vec3_at(sets, off),
            rotation: vec3_at(sets, off + 3),
        },
        BoneType::Type4 => BoneAnimModel::RotationIK {
            target: vec3_at(sets, off),
            rotation: vec3_at(sets, off + 3),
        },
        BoneType::Type5 => BoneAnimModel::ArmIK {
            target: vec3_at(sets, off),
            rotation: vec3_at(sets, off + 3),
        },
        BoneType::Type6 => BoneAnimModel::PositionIKRotation {
            position: vec3_at(sets, off),
            target: vec3_at(sets, off + 3),
        },
    }
}

/// The entry qualification produces for bone `i`: the bone index paired
/// with the animation built from the channels the earlier bones left.
pub open spec fn spec_anim_at(
    names: Seq<String>,
    types: Seq<(String, BoneType)>,
    m: MotionModel,
    i: int,
) -> (usize, Option<BoneAnimModel>) {
    let id = m.bones[i];
    match spec_resolve(names, types, id) {
        None => (id, None),
        Some(t) => (id, Some(spec_build(t, m.sets, spec_required(names, types, m.bones.take(i))))),
    }
}

/// Everything qualification produces: one entry per bone, in order.
pub open spec fn spec_qualify(
    names: Seq<String>,
    types: Seq<(String, BoneType)>,
    m: MotionModel,
) -> Seq<(usize, Option<BoneAnimModel>)> {
    Seq::new(m.bones.len(), |i: int| spec_anim_at(names, types, m, i))
}

/// Why a flat record could not be qualified: the channel queue ran out.
#[derive(Debug, Clone, Copy, PartialEq, Eq, Structural)]
pub struct QualifyError {
    /// The position in the bone list of the first bone whose resolved
    /// type demands more channels than the queue still holds.
    pub at_bone: usize,
}

/// Consuming one more bone's channels never shrinks the total, and a
/// prefix never needs more than the whole.
pub(crate) proof fn lemma_required_snoc(
    names: Seq<String>,
    types: Seq<(String, BoneType)>,
    bones: Seq<usize>,
    i: int,
)
    requires
        0 <= i < bones.len(),
    ensures
        spec_required(names, types, bones.take(i + 1)) == spec_required(names, types, bones.take(i))
            + bone_required(names, types, bones[i]),
    decreases i,
{
    if i == 0 {
        assert(bones.take(0) =~= Seq::<usize>::empty());
        assert(bones.take(1).drop_first() =~= Seq::<usize>::empty());
        assert(bones.take(1)[0] == bones[0]);
    } else {
        let rest = bones.drop_first();
        lemma_required_snoc(names, types, rest, i - 1);
        assert(bones.take(i + 1).drop_first() =~= rest.take(i));
        assert(bones.take(i).drop_first() =~= rest.take(i - 1));
        assert(bones.take(i + 1)[0] == bones[0]);
        assert(bones.take(i)[0] == bones[0]);
        assert(rest[i - 1] == bones[i]);
    }
}

pub(crate) proof fn lemma_required_nonneg(names: Seq<String>, types: Seq<(String, BoneType)>, bones: Seq<usize>)
    ensures
        spec_required(names, types, bones) >= 0,
    decreases bones.len(),
{
    if bones.len() > 0 {
        lemma_required_nonneg(names, types, bones.drop_first());
    }
}

pub(crate) proof fn lemma_required_prefix_le(
    names: Seq<String>,
    types: Seq<(String, BoneType)>,
    bones: Seq<usize>,
    i: int,
)
    requires
        0 <= i <= bones.len(),
    ensures
        spec_required(names, types, bones.take(i)) <= spec_required(names, types, bones),
    decreases bones.len() - i,
{
    if i == bones.len() {
        assert(bones.take(i) =~= bones);
    } else {
        lemma_required_snoc(names, types, bones, i);
        lemma_required_prefix_le(names, types, bones, i + 1);
    }
}

/// Takes the next three channels off the front of the flat queue.
fn take_vec3(sets: &mut Vec<FrameData>) -> (v: Vec3)
    requires
        old(sets)@.len() >= 3,
    ensures
        final(sets)@ == old(sets)@.skip(3),
        v.model() == (Vec3Model {
            x: old(sets)@[0].model(),
            y: old(sets)@[1].model(),
            z: old(sets)@[2].model(),
        }),
{
    let x = sets.remove(0);
    let y = sets.remove(0);
    let z = sets.remove(0);
    proof {
        assert(final(sets)@ =~= old(sets)@.skip(3));
    }
    Vec3 { x, y, z }
}

/// Looks a bone index up in the two tables, with the hardcoded fallbacks.
fn resolve_bone_type(names: &BoneNameTable, types: &BoneTypeTable, id: usize) -> (r: Option<
    BoneType,
>)
    ensures
        r == spec_resolve(names.names@, types.entries@, id),
{
    if id >= names.names.len() {
        return None;
    }
    let name: &String = &names.names[id];
    let n: usize = types.entries.len();
    let mut k: usize = 0;
    proof {
        assert(types.entries@.skip(0) =~= types.entries@);
    }
    while k < n
        invariant
            n == types.entries@.len(),
            k <= n,
            id < names.names@.len(),
            name@ == names.names@[id as int]@,
            spec_lookup_type(types.entries@, name@) == spec_lookup_type(
                types.entries@.skip(k as int),
                name@,
            ),
        decreases n - k,
    {
        proof {
            assert(types.entries@.skip(k as int)[0] == types.entries@[k as int]);
            assert(types.entries@.skip(k as int).drop_first() =~= types.entries@.skip(k + 1));
        }
        if types.entries[k].0.eq(name) {
            return Some(types.entries[k].1);
        }
        k = k + 1;
    }
    proof {
        assert(types.entries@.skip(n as int) =~= Seq::<(String, BoneType)>::empty());
    }
    let gblctr: String = "gblctr".to_owned();
    if name.eq(&gblctr) {
        return Some(BoneType::Position);
    }
    let kg_ya_ex: String = "kg_ya_ex".to_owned();
    if name.eq(&kg_ya_ex) {
        return Some(BoneType::Rotation);
    }
    None
}

impl Motion {
    /// Reclassifies this flat record into per-bone structured animations,
    /// resolving each bone through the supplied tables.
    ///
    /// Succeeds exactly when the flat channel queue holds at least as many
    /// channels as the resolved bone types require in total; leftover
    /// channels are discarded. An unresolvable bone is kept with no
    /// animation and consumes nothing.
    pub fn qualify(self, names: &BoneNameTable, types: &BoneTypeTable) -> (r: Result<
        QualifiedMotion,
        QualifyError,
    >)
        ensures
            match r {
                Ok(q) => spec_required(names.names@, types.entries@, self.model().bones)
                    <= self.model().sets.len() && q.model() == spec_qualify(
                    names.names@,
                    types.entries@,
                    self.model(),
                ),
                Err(e) => {
                    let gn = names.names@;
                    let gt = types.entries@;
                    &&& spec_required(gn, gt, self.model().bones) > self.model().sets.len()
                    &&& e.at_bone < self.model().bones.len()
                    &&& spec_required(gn, gt, self.model().bones.take(e.at_bone as int))
                        <= self.model().sets.len()
                    &&& spec_required(gn, gt, self.model().bones.take(e.at_bone + 1))
                        > self.model().sets.len()
                },
            },
    {
        let ghost m = self.model();
        let ghost gnames = names.names@;
        let ghost gtypes = types.entries@;
        let Motion { sets, bones } = self;
        let mut sets: Vec<FrameData> = sets;
        let n: usize = bones.len();
        let total: usize = sets.len();
        proof {
            assert(m.bones == bones@ && m.sets.len() == sets@.len());
            assert(forall|j: int|
                0 <= j < sets@.len() ==> m.sets[j] == #[trigger] sets@[j].model());
            assert(m.bones.take(0) =~= Seq::<usize>::empty());
        }
        let mut anims: Vec<(usize, Option<BoneAnim>)> = Vec::new();
        let mut i: usize = 0;
        while i < n
            invariant
                m == self.model(),
                gnames == names.names@,
                gtypes == types.entries@,
                n == bones@.len(),
                m.bones == bones@,
                m.sets.len() == total,
                i <= n,
                anims@.len() == i,
                spec_required(gnames, gtypes, m.bones.take(i as int)) == total - sets@.len(),
                sets@.len() <= total,
                forall|j: int|
                    0 <= j < sets@.len() ==> m.sets[total - sets@.len() + j] == #[trigger] sets@[j].model(),
                forall|j: int|
                    0 <= j < i ==> anim_entry_model(#[trigger] anims@[j]) == spec_anim_at(
                        gnames,
                        gtypes,
                        m,
                        j,
                    ),
            decreases n - i,
        {
            let id: usize = bones[i];
            let ghost consumed = total - sets@.len();
            proof {
                lemma_required_snoc(gnames, gtypes, m.bones, i as int);
            }
            match resolve_bone_type(names, types, id) {
                None => {
                    anims.push((id, None));
                },
                Some(t) => {
                    let need: usize = match t {
                        BoneType::Rotation => 3,
                        BoneType::Position => 3,
                        _ => 6,
                    };
                    if sets.len() < need {
                        proof {
                            lemma_required_prefix_le(gnames, gtypes, m.bones, i + 1);
                        }
                        return Err(QualifyError { at_bone: i });
                    }
                    let first: Vec3 = take_vec3(&mut sets);
                    let anim: BoneAnim = match t {
                        BoneType::Rotation => BoneAnim::Rotation(first),
                        BoneType::Position => BoneAnim::Position(first),
                        BoneType::Type1 => BoneAnim::Type1(first, take_vec3(&mut sets)),
                        BoneType::Type3 => BoneAnim::PositionRotation {
                            position: first,
                            rotation: take_vec3(&mut sets),
                        },
                        BoneType::Type4 => BoneAnim::RotationIK {
                            target: first,
                            rotation: take_vec3(&mut sets),
                        },
                        BoneType::Type5 => BoneAnim::ArmIK {
                            target: first,
                            rotation: take_vec3(&mut sets),
                        },
                        BoneType::Type6 => BoneAnim::PositionIKRotation {
                            position: first,
                            target: take_vec3(&mut sets),
                        },
                    };
                    proof {
                        assert(anim.model() == spec_build(t, m.sets, consumed));
                    }
                    anims.push((id, Some(anim)));
                },
            }
            i = i + 1;
        }
        proof {
            assert(m.bones.take(n as int) =~= m.bones);
            lemma_required_nonneg(gnames, gtypes, m.bones);
            let q = QualifiedMotion { anims };
            assert(q.model() =~= spec_qualify(gnames, gtypes, m));
        }
        Ok(QualifiedMotion { anims })
    }
}

/// The rank a name sorts by: the first match in the canonical-rank table,
/// or 255 — the lowest priority — when the table lacks the name.
pub open spec fn spec_lookup_rank(entries: Seq<(String, u8)>, name: Seq<char>) -> u8
    decreases entries.len(),
{
    if entries.len() == 0 {
        255u8
    } else if entries[0].0@ == name {
        entries[0].1
    } else {
        spec_lookup_rank(entries.drop_first(), name)
    }
}

/// The rank a bone index sorts by: its name's rank, or 255 when the index
/// resolves to no name.
pub open spec fn spec_rank(names: Seq<String>, ranks: Seq<(String, u8)>, id: usize) -> u8 {
    if id < names.len() {
        spec_lookup_rank(ranks, names[id as int]@)
    } else {
        255u8
    }
}

/// The predicate picking the entries of one rank.
pub open spec fn rank_pred(names: Seq<String>, ranks: Seq<(String, u8)>, v: int) -> spec_fn(
    (usize, Option<BoneAnim>),
) -> bool {
    |p: (usize, Option<BoneAnim>)| spec_rank(names, ranks, p.0) == v
}

/// The entries of one rank, in their original order.
pub open spec fn rank_group(
    names: Seq<String>,
    ranks: Seq<(String, u8)>,
    s: Seq<(usize, Option<BoneAnim>)>,
    v: int,
) -> Seq<(usize, Option<BoneAnim>)> {
    s.filter(rank_pred(names, ranks, v))
}

/// The entries of ranks `v` and above, grouped by rank in ascending order.
pub open spec fn groups_from(
    names: Seq<String>,
    ranks: Seq<(String, u8)>,
    s: Seq<(usize, Option<BoneAnim>)>,
    v: int,
) -> Seq<(usize, Option<BoneAnim>)>
    decreases 256 - v,
{
    if v >= 256 {
        Seq::empty()
    } else {
        rank_group(names, ranks, s, v) + groups_from(names, ranks, s, v + 1)
    }
}

/// The canonical order of a structured motion: its entries grouped by
/// ascending rank, entries of equal rank keeping their original order.
pub open spec fn spec_stable_sort(
    names: Seq<String>,
    ranks: Seq<(String, u8)>,
    s: Seq<(usize, Option<BoneAnim>)>,
) -> Seq<(usize, Option<BoneAnim>)> {
    groups_from(names, ranks, s, 0)
}

proof fn lemma_filter_all<A>(s: Seq<A>, pred: spec_fn(A) -> bool)
    requires
        forall|i: int| 0 <= i < s.len() ==> pred(#[trigger] s[i]),
    ensures
        s.filter(pred) == s,
    decreases s.len(),
{
    reveal(Seq::filter);
    if s.len() == 0 {
        assert(s.filter(pred) =~= s);
    } else {
        lemma_filter_all(s.drop_last(), pred);
        assert(s.drop_last().push(s.last()) =~= s);
    }
}

proof fn lemma_filter_none<A>(s: Seq<A>, pred: spec_fn(A) -> bool)
    requires
        forall|i: int| 0 <= i < s.len() ==> !pred(#[trigger] s[i]),
    ensures
        s.filter(pred) == Seq::<A>::empty(),
    decreases s.len(),
{
    reveal(Seq::filter);
    if s.len() == 0 {
        assert(s.filter(pred) =~= Seq::<A>::empty());
    } else {
        lemma_filter_none(s.drop_last(), pred);
    }
}

/// What one rank's filter keeps of the grouped entries of ranks `vp` and
/// above: the whole group for a rank the grouping covers, nothing else.
proof fn lemma_groups_filter(
    names: Seq<String>,
    ranks: Seq<(String, u8)>,
    s: Seq<(usize, Option<BoneAnim>)>,
    vp: int,
    v: int,
)
    requires
        0 <= v < 256,
        0 <= vp <= 256,
    ensures
        rank_group(names, ranks, groups_from(names, ranks, s, vp), v) == (if vp <= v {
            rank_group(names, ranks, s, v)
        } else {
            Seq::<(usize, Option<BoneAnim>)>::empty()
        }),
    decreases 256 - vp,
{
    let pv = rank_pred(names, ranks, v);
    if vp >= 256 {
        lemma_filter_none(groups_from(names, ranks, s, vp), pv);
    } else {
        let g = rank_group(names, ranks, s, vp);
        let rest = groups_from(names, ranks, s, vp + 1);
        Seq::filter_distributes_over_add(g, rest, pv);
        lemma_groups_filter(names, ranks, s, vp + 1, v);
        broadcast use Seq::lemma_filter_pred;

        if vp == v {
            lemma_filter_all(g, pv);
            assert(g + Seq::<(usize, Option<BoneAnim>)>::empty() =~= g);
        } else {
            lemma_filter_none(g, pv);
            assert(Seq::<(usize, Option<BoneAnim>)>::empty() + rest.filter(pv) =~= rest.filter(
                pv,
            ));
        }
    }
}

/// Stability of the canonical order: for every rank — equal or missing
/// alike — the entries of that rank come out in exactly their original
/// relative order.
pub proof fn lemma_sort_stable(
    names: Seq<String>,
    ranks: Seq<(String, u8)>,
    s: Seq<(usize, Option<BoneAnim>)>,
    v: int,
)
    requires
        0 <= v < 256,
    ensures
        rank_group(names, ranks, spec_stable_sort(names, ranks, s), v) == rank_group(
            names,
            ranks,
            s,
            v,
        ),
{
    lemma_groups_filter(names, ranks, s, 0, v);
}

proof fn lemma_groups_idempotent(
    names: Seq<String>,
    ranks: Seq<(String, u8)>,
    s: Seq<(usize, Option<BoneAnim>)>,
    v: int,
)
    requires
        0 <= v <= 256,
    ensures
        groups_from(names, ranks, spec_stable_sort(names, ranks, s), v) == groups_from(
            names,
            ranks,
            s,
            v,
        ),
    decreases 256 - v,
{
    if v < 256 {
        lemma_sort_stable(names, ranks, s, v);
        lemma_groups_idempotent(names, ranks, s, v + 1);
    }
}

/// The canonical order is idempotent: sorting a second time changes
/// nothing.
pub proof fn lemma_sort_idempotent(
    names: Seq<String>,
    ranks: Seq<(String, u8)>,
    s: Seq<(usize, Option<BoneAnim>)>,
)
    ensures
        spec_stable_sort(names, ranks, spec_stable_sort(names, ranks, s)) == spec_stable_sort(
            names,
            ranks,
            s,
        ),
{
    lemma_groups_idempotent(names, ranks, s, 0);
}

/// Looks a bone index's canonical rank up through the two tables.
fn rank_of(names: &BoneNameTable, ranks: &BoneRankTable, id: usize) -> (r: u8)
    ensures
        r == spec_rank(names.names@, ranks.entries@, id),
{
    if id >= names.names.len() {
        return 255;
    }
    let name: &String = &names.names[id];
    let n: usize = ranks.entries.len();
    let mut k: usize = 0;
    proof {
        assert(ranks.entries@.skip(0) =~= ranks.entries@);
    }
    while k < n
        invariant
            n == ranks.entries@.len(),
            k <= n,
            id < names.names@.len(),
            name@ == names.names@[id as int]@,
            spec_lookup_rank(ranks.entries@, name@) == spec_lookup_rank(
                ranks.entries@.skip(k as int),
                name@,
            ),
        decreases n - k,
    {
        proof {
            assert(ranks.entries@.skip(k as int)[0] == ranks.entries@[k as int]);
            assert(ranks.entries@.skip(k as int).drop_first() =~= ranks.entries@.skip(k + 1));
        }
        if ranks.entries[k].0.eq(name) {
            return ranks.entries[k].1;
        }
        k = k + 1;
    }
    proof {
        assert(ranks.entries@.skip(n as int) =~= Seq::<(String, u8)>::empty());
    }
    255
}

impl QualifiedMotion {
    /// Reorders the per-bone animations into the consuming engine's
    /// canonical sequence: a stable sort by each bone's canonical rank,
    /// bones without a rank last. Entries of equal rank keep their
    /// original relative order.
    pub fn sort(&mut self, names: &BoneNameTable, ranks: &BoneRankTable)
        ensures
            final(self).anims@ == spec_stable_sort(
                names.names@,
                ranks.entries@,
                old(self).anims@,
            ),
    {
        let ghost gnames = names.names@;
        let ghost granks = ranks.entries@;
        let ghost s0 = self.anims@;
        let mut buckets: Vec<Vec<(usize, Option<BoneAnim>)>> = Vec::new();
        let mut v: usize = 0;
        while v < 256
            invariant
                v <= 256,
                buckets@.len() == v,
                forall|w: int| 0 <= w < v ==> (#[trigger] buckets@[w])@.len() == 0,
            decreases 256 - v,
        {
            buckets.push(Vec::new());
            v = v + 1;
        }
        proof {
            assert(s0.take(0) =~= Seq::<(usize, Option<BoneAnim>)>::empty());
            assert forall|w: int| 0 <= w < 256 implies (#[trigger] buckets@[w])@ == rank_group(
                gnames,
                granks,
                s0.take(0),
                w,
            ) by {
                lemma_filter_none(s0.take(0), rank_pred(gnames, granks, w));
                assert((buckets@[w])@ =~= Seq::<(usize, Option<BoneAnim>)>::empty());
            }
        }
        let mut i: usize = 0;
        let n: usize = self.anims.len();
        while i < n
            invariant
                gnames == names.names@,
                granks == ranks.entries@,
                n == s0.len(),
                i <= n,
                self.anims@ == s0.skip(i as int),
                buckets@.len() == 256,
                forall|w: int| 0 <= w < 256 ==> (#[trigger] buckets@[w])@ == rank_group(
                    gnames,
                    granks,
                    s0.take(i as int),
                    w,
                ),
            decreases n - i,
        {
            let e: (usize, Option<BoneAnim>) = self.anims.remove(0);
            proof {
                assert(self.anims@ =~= s0.skip(i + 1));
                assert(e == s0[i as int]);
            }
            let r: u8 = rank_of(names, ranks, e.0);
            let ghost old_buckets = buckets@;
            let b: &mut Vec<(usize, Option<BoneAnim>)> = &mut buckets[r as usize];
            b.push(e);
            proof {
                reveal(Seq::filter);
                assert forall|w: int| 0 <= w < 256 implies (#[trigger] buckets@[w])@ == rank_group(
                    gnames,
                    granks,
                    s0.take(i + 1),
                    w,
                ) by {
                    let pw = rank_pred(gnames, granks, w);
                    assert(s0.take(i + 1).drop_last() =~= s0.take(i as int));
                    assert(s0.take(i + 1).last() == s0[i as int]);
                    if w == r as int {
                        assert(pw(s0[i as int]));
                        assert((buckets@[w])@ == (old_buckets[w])@.push(e));
                    } else {
                        assert(!pw(s0[i as int]));
                        assert(buckets@[w] == old_buckets[w]);
                    }
                }
            }
            i = i + 1;
        }
        proof {
            assert(s0.take(n as int) =~= s0);
        }
        let mut out: Vec<(usize, Option<BoneAnim>)> = Vec::new();
        let mut v: usize = 0;
        while v < 256
            invariant
                gnames == names.names@,
                granks == ranks.entries@,
                v <= 256,
                buckets@.len() == 256,
                forall|w: int| v <= w < 256 ==> (#[trigger] buckets@[w])@ == rank_group(
                    gnames,
                    granks,
                    s0,
                    w,
                ),
                spec_stable_sort(gnames, granks, s0) == out@ + groups_from(
                    gnames,
                    granks,
                    s0,
                    v as int,
                ),
            decreases 256 - v,
        {
            let ghost old_out = out@;
            let b: &mut Vec<(usize, Option<BoneAnim>)> = &mut buckets[v];
            out.append(b);
            proof {
                assert(groups_from(gnames, granks, s0, v as int) == rank_group(
                    gnames,
                    granks,
                    s0,
                    v as int,
                ) + groups_from(gnames, granks, s0, v + 1));
                assert((old_out + rank_group(gnames, granks, s0, v as int)) + groups_from(
                    gnames,
                    granks,
                    s0,
                    v + 1,
                ) =~= old_out + (rank_group(gnames, granks, s0, v as int) + groups_from(
                    gnames,
                    granks,
                    s0,
                    v + 1,
                )));
            }
            v = v + 1;
        }
        proof {
            assert(out@ + Seq::<(usize, Option<BoneAnim>)>::empty() =~= out@);
        }
        self.anims = out;
    }
}

} // verus!
