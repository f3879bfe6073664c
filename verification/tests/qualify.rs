use mot::FrameData;
use mot::Keyframe;
use mot::Motion;
use mot::qualified::BoneAnim;
use mot::qualified::BoneNameTable;
use mot::qualified::BoneRankTable;
use mot::qualified::BoneType;
use mot::qualified::BoneTypeTable;
use mot::qualified::QualifiedMotion;
use mot::qualified::Vec3;

fn names(list: &[&str]) -> BoneNameTable {
    BoneNameTable { names: list.iter().map(|s| s.to_string()).collect() }
}

fn types(list: &[(&str, BoneType)]) -> BoneTypeTable {
    BoneTypeTable {
        entries: list.iter().map(|(s, t)| (s.to_string(), *t)).collect(),
    }
}

fn ranks(list: &[(&str, u8)]) -> BoneRankTable {
    BoneRankTable {
        entries: list.iter().map(|(s, r)| (s.to_string(), *r)).collect(),
    }
}

fn pose(v: f32) -> FrameData {
    FrameData::Pose(v.to_bits())
}

#[test]
fn qualify_consumes_exactly() {
    // Channel count equals the per-bone requirement: 3 for the rotation
    // bone plus 6 for the position-rotation bone; the queue empties.
    let m = Motion {
        sets: vec![
            pose(1.0),
            pose(2.0),
            pose(3.0),
            pose(4.0),
            pose(5.0),
            pose(6.0),
            FrameData::Empty,
            FrameData::Empty,
            FrameData::Empty,
        ],
        bones: vec![0, 1],
    };
    let nt = names(&["alpha", "beta"]);
    let tt = types(&[("alpha", BoneType::Rotation), ("beta", BoneType::Type3)]);
    let q = m.qualify(&nt, &tt).unwrap();
    assert_eq!(q.anims.len(), 2);
    assert_eq!(q.anims[0].0, 0);
    match &q.anims[0].1 {
        Some(BoneAnim::Rotation(v)) => {
            assert_eq!(v.x, pose(1.0));
            assert_eq!(v.y, pose(2.0));
            assert_eq!(v.z, pose(3.0));
        }
        other => panic!("expected a rotation, got {:?}", other),
    }
    match &q.anims[1].1 {
        Some(BoneAnim::PositionRotation { position, rotation }) => {
            assert_eq!(position.x, pose(4.0));
            assert_eq!(rotation.x, FrameData::Empty);
        }
        other => panic!("expected a position-rotation, got {:?}", other),
    }
}

#[test]
fn qualify_target_comes_first() {
    // The IK variants consume their target triple before the rotation.
    let m = Motion {
        sets: vec![pose(1.0), pose(2.0), pose(3.0), pose(4.0), pose(5.0), pose(6.0)],
        bones: vec![0],
    };
    let nt = names(&["arm"]);
    let tt = types(&[("arm", BoneType::Type5)]);
    let q = m.qualify(&nt, &tt).unwrap();
    match &q.anims[0].1 {
        Some(BoneAnim::ArmIK { target, rotation }) => {
            assert_eq!(target.x, pose(1.0));
            assert_eq!(rotation.x, pose(4.0));
        }
        other => panic!("expected an arm-ik, got {:?}", other),
    }
}

#[test]
fn qualify_fails_on_channel_shortage() {
    let m = Motion { sets: vec![pose(1.0), pose(2.0)], bones: vec![0] };
    let nt = names(&["alpha"]);
    let tt = types(&[("alpha", BoneType::Rotation)]);
    assert!(m.qualify(&nt, &tt).is_err());
}

#[test]
fn qualify_keeps_unresolved_bones() {
    // A name absent from the bone-type table is kept with no animation
    // and consumes no channels; leftovers are discarded.
    let m = Motion { sets: vec![pose(1.0), pose(2.0)], bones: vec![0] };
    let nt = names(&["mystery"]);
    let tt = types(&[]);
    let q = m.qualify(&nt, &tt).unwrap();
    assert_eq!(q.anims, vec![(0, None)]);
}

#[test]
fn qualify_hardcoded_fallbacks() {
    let m = Motion {
        sets: vec![pose(1.0), pose(2.0), pose(3.0), pose(4.0), pose(5.0), pose(6.0)],
        bones: vec![0, 1],
    };
    let nt = names(&["gblctr", "kg_ya_ex"]);
    let tt = types(&[]);
    let q = m.qualify(&nt, &tt).unwrap();
    assert!(matches!(q.anims[0].1, Some(BoneAnim::Position(_))));
    assert!(matches!(q.anims[1].1, Some(BoneAnim::Rotation(_))));
}

fn empty_anim() -> Option<BoneAnim> {
    Some(BoneAnim::Rotation(Vec3 {
        x: FrameData::Empty,
        y: FrameData::Empty,
        z: FrameData::Empty,
    }))
}

#[test]
fn sort_by_canonical_rank() {
    // Ranks: hip 0, spine 1, chest missing (defaults to 255).
    let nt = names(&["chest", "hip", "spine"]);
    let rt = ranks(&[("hip", 0), ("spine", 1)]);
    let mut q = QualifiedMotion {
        anims: vec![(0, empty_anim()), (1, empty_anim()), (2, empty_anim())],
    };
    q.sort(&nt, &rt);
    let order: Vec<usize> = q.anims.iter().map(|p| p.0).collect();
    assert_eq!(order, vec![1, 2, 0]);
}

#[test]
fn sort_twice_is_idempotent() {
    let nt = names(&["a", "b", "c", "d"]);
    let rt = ranks(&[("b", 3), ("c", 1)]);
    let mut q = QualifiedMotion {
        anims: vec![
            (0, empty_anim()),
            (1, None),
            (2, empty_anim()),
            (3, None),
        ],
    };
    q.sort(&nt, &rt);
    let once = q.anims.clone();
    q.sort(&nt, &rt);
    assert_eq!(q.anims, once);
}

#[test]
fn sort_keeps_equal_rank_order() {
    // Bones without a rank all sort last and keep their input order.
    let nt = names(&["p", "q", "r"]);
    let rt = ranks(&[("q", 7)]);
    let mut q = QualifiedMotion {
        anims: vec![(2, None), (0, empty_anim()), (1, None)],
    };
    q.sort(&nt, &rt);
    let order: Vec<usize> = q.anims.iter().map(|p| p.0).collect();
    assert_eq!(order, vec![1, 2, 0]);
}

#[test]
fn to_pose_collapses_keyed_channels() {
    let mut v = Vec3 {
        x: FrameData::Linear(vec![
            Keyframe { frame: 0, value: 2.5f32.to_bits() },
            Keyframe { frame: 9, value: 7.0f32.to_bits() },
        ]),
        y: pose(1.0),
        z: FrameData::Empty,
    };
    v.to_pose();
    assert_eq!(v.x, pose(2.5));
    assert_eq!(v.y, pose(1.0));
    assert_eq!(v.z, FrameData::Empty);
}

#[test]
fn rotation_of_empty_channels_has_no_payload() {
    // A rotation bone with all-empty channels: exactly one tag byte of
    // three zero tag pairs, and zero payload bytes.
    let q = QualifiedMotion { anims: vec![(4, empty_anim())] };
    let bytes = q.write().unwrap();
    let set_off = u32::from_le_bytes([bytes[8], bytes[9], bytes[10], bytes[11]]) as usize;
    let bones_off = u32::from_le_bytes([bytes[12], bytes[13], bytes[14], bytes[15]]) as usize;
    assert_eq!(bones_off - set_off, 0);
    // The count field holds the three channels, the terminator and the
    // version marker.
    let count_field = u16::from_le_bytes([bytes[32], bytes[33]]);
    assert_eq!(count_field, 3 + 2 + 0x3FFF);
    // One tag byte, all slots zero.
    assert_eq!(bytes[36], 0);
    // The bone array holds the single bone index.
    assert_eq!(u16::from_le_bytes([bytes[bones_off], bytes[bones_off + 1]]), 4);
    assert_eq!(bytes.len(), bones_off + 2);
}

#[test]
fn flatten_restores_consumed_channels() {
    // Flattening the qualification's animations gives back exactly the
    // channels the bones consumed, in order.
    let sets = vec![
        pose(1.0),
        pose(2.0),
        pose(3.0),
        pose(4.0),
        pose(5.0),
        pose(6.0),
        pose(7.0),
        pose(8.0),
        pose(9.0),
    ];
    let m = Motion { sets: sets.clone(), bones: vec![0, 2, 1] };
    let nt = names(&["alpha", "beta", "gamma"]);
    let tt = types(&[("alpha", BoneType::Rotation), ("gamma", BoneType::Type4)]);
    // alpha takes 3 channels, gamma 6, beta resolves nowhere.
    let q = m.qualify(&nt, &tt).unwrap();
    let mut flat: Vec<FrameData> = Vec::new();
    for (_, anim) in q.anims {
        if let Some(a) = anim {
            flat.extend(a.sets());
        }
    }
    assert_eq!(flat, sets);
}

#[test]
fn qualified_write_matches_flat_write() {
    // A structured motion and the flat record it flattens to produce the
    // same payload and bone array; the count fields differ by exactly the
    // terminator slot the structured writer reserves.
    let lin = FrameData::Linear(vec![Keyframe { frame: 3, value: 1.5f32.to_bits() }]);
    let q = QualifiedMotion {
        anims: vec![(1, Some(BoneAnim::Rotation(Vec3 {
            x: lin.clone(),
            y: pose(2.0),
            z: FrameData::Empty,
        })))],
    };
    let qb = q.write().unwrap();
    let flat = Motion { sets: vec![lin, pose(2.0), FrameData::Empty], bones: vec![1] };
    let fb = flat.write().unwrap();
    assert_eq!(qb.len(), fb.len());
    let qcount = u16::from_le_bytes([qb[32], qb[33]]);
    let fcount = u16::from_le_bytes([fb[32], fb[33]]);
    assert_eq!(qcount, fcount + 1);
    assert_eq!(&qb[36..], &fb[36..]);
}
