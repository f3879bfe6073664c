//! The 2-bit channel-tag codec.
//!
//! Every channel of a record carries a 2-bit tag giving its storage variant.
//! Tags of four consecutive channels pack into one byte, least-significant
//! pair first; a final partial byte zero-fills its unused slots. Two readers
//! exist for the same stream: the byte-wise one, and a legacy one that loads
//! 16-bit groups of eight tags. Both are proved to yield the same tags.

use vstd::prelude::*;

use crate::ChannelModel;
use crate::FrameData;

verus! {

/// The storage variant of one channel, as named by its 2-bit tag:
/// `0b00` empty, `0b01` single pose, `0b10` linear keys, `0b11` smooth keys.
#[derive(Debug, Clone, Copy, PartialEq, Eq, Structural)]
pub enum SetType {
    Empty,
    Pose,
    Linear,
    Smooth,
}

/// The 2-bit code of a tag.
pub open spec fn tag_code(t: SetType) -> u8 {
    match t {
        SetType::Empty => 0,
        SetType::Pose => 1,
        SetType::Linear => 2,
        SetType::Smooth => 3,
    }
}

/// The tag denoted by a 2-bit code, or nothing for a wider value.
pub open spec fn spec_from_bits(bits: u8) -> Option<SetType> {
    if bits == 0 {
        Some(SetType::Empty)
    } else if bits == 1 {
        Some(SetType::Pose)
    } else if bits == 2 {
        Some(SetType::Linear)
    } else if bits == 3 {
        Some(SetType::Smooth)
    } else {
        None
    }
}

/// The tag of a channel value.
pub open spec fn channel_set_type(c: ChannelModel) -> SetType {
    match c {
        ChannelModel::Empty => SetType::Empty,
        ChannelModel::Pose(_) => SetType::Pose,
        ChannelModel::Linear(_) => SetType::Linear,
        ChannelModel::Smooth(_) => SetType::Smooth,
    }
}

/// The 2-bit code stored in slot `k` (0..4) of a packed byte: every slot
/// beyond the tag sequence is zero-filled.
pub open spec fn slot_code(tags: Seq<SetType>, k: int) -> u8 {
    if 0 <= k < tags.len() {
        tag_code(tags[k])
    } else {
        0
    }
}

/// The packed byte holding tags `4*i .. 4*i + 4`.
pub open spec fn pack_byte(tags: Seq<SetType>, i: int) -> u8 {
    (slot_code(tags, 4 * i) + 4 * slot_code(tags, 4 * i + 1) + 16 * slot_code(tags, 4 * i + 2)
        + 64 * slot_code(tags, 4 * i + 3)) as u8
}

/// The packed byte stream of a tag sequence: `ceil(len / 4)` bytes.
pub open spec fn spec_pack_tags(tags: Seq<SetType>) -> Seq<u8> {
    Seq::new((tags.len() + 3) / 4, |i: int| pack_byte(tags, i))
}

/// The 2-bit code in slot `k` (0..4) of a packed byte.
pub open spec fn byte_slot(b: u8, k: int) -> u8 {
    if k == 0 {
        (b % 4) as u8
    } else if k == 1 {
        ((b / 4) % 4) as u8
    } else if k == 2 {
        ((b / 16) % 4) as u8
    } else {
        ((b / 64) % 4) as u8
    }
}

/// The 2-bit code in slot `k` (0..8) of a 16-bit group.
pub open spec fn word_slot(w: u16, k: int) -> u8 {
    if k < 4 {
        byte_slot((w % 256) as u8, k)
    } else {
        byte_slot((w / 256) as u8, k - 4)
    }
}

/// The tag sequence read byte-wise: tag `i` sits in slot `i % 4` of byte
/// `i / 4`. Nothing is read when the bytes cannot hold `n` tags.
pub open spec fn spec_unpack_tags(bytes: Seq<u8>, n: nat) -> Option<Seq<SetType>> {
    if (n + 3) / 4 <= bytes.len() {
        Some(Seq::new(n, |i: int| spec_from_bits(byte_slot(bytes[i / 4], i % 4)).unwrap()))
    } else {
        None
    }
}

/// The tag sequence read through the legacy 16-bit-group cursor: tag `i`
/// sits in slot `i % 8` of the little-endian 16-bit word at byte `2 * (i / 8)`.
/// A full word is loaded for every started group of eight tags.
pub open spec fn spec_unpack_tags_legacy(bytes: Seq<u8>, n: nat) -> Option<Seq<SetType>> {
    if 2 * ((n + 7) / 8) <= bytes.len() {
        Some(
            Seq::new(
                n,
                |i: int|
                    spec_from_bits(
                        word_slot(
                            (bytes[2 * (i / 8)] + 256 * bytes[2 * (i / 8) + 1] as u16) as u16,
                            i % 8,
                        ),
                    ).unwrap(),
            ),
        )
    } else {
        None
    }
}

impl SetType {
    /// The tag denoted by a 2-bit code.
    pub fn from_bits(bits: u8) -> (r: Option<SetType>)
        ensures
            r == spec_from_bits(bits),
    {
        if bits == 0 {
            Some(SetType::Empty)
        } else if bits == 1 {
            Some(SetType::Pose)
        } else if bits == 2 {
            Some(SetType::Linear)
        } else if bits == 3 {
            Some(SetType::Smooth)
        } else {
            None
        }
    }

    /// The 2-bit code of this tag.
    pub fn as_bits(&self) -> (r: u8)
        ensures
            r == tag_code(*self),
    {
        match self {
            SetType::Empty => 0,
            SetType::Pose => 1,
            SetType::Linear => 2,
            SetType::Smooth => 3,
        }
    }
}

impl FrameData {
    /// The 2-bit code of this channel's tag.
    pub fn as_bits(&self) -> (r: u8)
        ensures
            r == tag_code(channel_set_type(self.model())),
    {
        match self {
            FrameData::Empty => 0,
            FrameData::Pose(_) => 1,
            FrameData::Linear(_) => 2,
            FrameData::Smooth(_) => 3,
        }
    }

    /// This channel's tag.
    pub fn set_type(&self) -> (r: SetType)
        ensures
            r == channel_set_type(self.model()),
    {
        match self {
            FrameData::Empty => SetType::Empty,
            FrameData::Pose(_) => SetType::Pose,
            FrameData::Linear(_) => SetType::Linear,
            FrameData::Smooth(_) => SetType::Smooth,
        }
    }
}

/// Packs a tag sequence into its byte stream: `ceil(len / 4)` bytes, tag `i`
/// in slot `i % 4` of byte `i / 4`, unused slots of the last byte zero.
pub fn pack_tags(tags: &Vec<SetType>) -> (r: Vec<u8>)
    ensures
        r@ == spec_pack_tags(tags@),
{
    let n = tags.len();
    let n_bytes = n / 4 + if n % 4 == 0 { 0 } else { 1 };
    assert(n_bytes == (n + 3) / 4);
    let mut r: Vec<u8> = Vec::new();
    let mut i: usize = 0;
    while i < n_bytes
        invariant
            n == tags.len(),
            n_bytes == (n + 3) / 4,
            i <= n_bytes,
            r@.len() == i,
            forall|j: int| 0 <= j < i ==> r@[j] == pack_byte(tags@, j),
        decreases n_bytes - i,
    {
        let t0 = tags[4 * i].as_bits();
        let t1 = if 4 * i + 1 < n { tags[4 * i + 1].as_bits() } else { 0 };
        let t2 = if 4 * i + 2 < n { tags[4 * i + 2].as_bits() } else { 0 };
        let t3 = if 4 * i + 3 < n { tags[4 * i + 3].as_bits() } else { 0 };
        r.push(t0 + 4 * t1 + 16 * t2 + 64 * t3);
        i = i + 1;
    }
    assert(r@ =~= spec_pack_tags(tags@));
    r
}

/// Unpacks `count` tags from a packed byte stream, reading byte by byte.
/// Fails exactly when the stream is too short to hold `count` tags.
pub fn unpack_tags(bytes: &[u8], count: usize) -> (r: Option<Vec<SetType>>)
    ensures
        match r {
            Some(tags) => spec_unpack_tags(bytes@, count as nat) == Some(tags@),
            None => spec_unpack_tags(bytes@, count as nat) is None,
        },
{
    let n_bytes = count / 4 + if count % 4 == 0 { 0 } else { 1 };
    assert(n_bytes == (count + 3) / 4);
    if n_bytes > bytes.len() {
        return None;
    }
    let mut r: Vec<SetType> = Vec::new();
    let mut i: usize = 0;
    while i < count
        invariant
            (count + 3) / 4 <= bytes@.len(),
            i <= count,
            r@.len() == i,
            forall|j: int| 0 <= j < i ==> r@[j] == spec_from_bits(
                byte_slot(bytes@[j / 4], j % 4),
            ).unwrap(),
        decreases count - i,
    {
        let b = bytes[i / 4];
        let k = i % 4;
        let code = if k == 0 {
            b % 4
        } else if k == 1 {
            (b / 4) % 4
        } else if k == 2 {
            (b / 16) % 4
        } else {
            (b / 64) % 4
        };
        assert(code == byte_slot(bytes@[i as int / 4], i as int % 4));
        let tag = match SetType::from_bits(code) {
            Some(t) => t,
            Option::None => {
                // A 2-bit extraction is always below four.
                proof {
                    assert(false);
                }
                SetType::Empty
            },
        };
        r.push(tag);
        i = i + 1;
    }
    proof {
        let s = spec_unpack_tags(bytes@, count as nat).unwrap();
        assert(r@ =~= s);
    }
    Some(r)
}

/// Unpacks `count` tags through the legacy cursor, which loads a 16-bit
/// little-endian group for every started run of eight tags. Fails exactly
/// when the stream is too short for those full groups.
pub fn unpack_tags_legacy(bytes: &[u8], count: usize) -> (r: Option<Vec<SetType>>)
    ensures
        match r {
            Some(tags) => spec_unpack_tags_legacy(bytes@, count as nat) == Some(tags@),
            None => spec_unpack_tags_legacy(bytes@, count as nat) is None,
        },
{
    let n_groups = count / 8 + if count % 8 == 0 { 0 } else { 1 };
    assert(n_groups == (count + 7) / 8);
    if n_groups > bytes.len() / 2 {
        proof {
            assert(2 * ((count + 7) / 8) > bytes@.len());
        }
        return None;
    }
    assert(2 * ((count + 7) / 8) <= bytes@.len());
    let mut r: Vec<SetType> = Vec::new();
    let mut i: usize = 0;
    let mut group: u16 = 0;
    while i < count
        invariant
            2 * ((count + 7) / 8) <= bytes@.len(),
            i <= count,
            r@.len() == i,
            i % 8 != 0 && i < count ==> group == (bytes@[2 * (i as int / 8)] + 256 * (bytes@[2 * (i as int / 8) + 1] as u16)) as u16,
            forall|j: int| 0 <= j < i ==> r@[j] == spec_from_bits(
                word_slot((bytes@[2 * (j / 8)] + 256 * bytes@[2 * (j / 8) + 1] as u16) as u16, j % 8),
            ).unwrap(),
        decreases count - i,
    {
        if i % 8 == 0 {
            let lo = bytes[2 * (i / 8)];
            let hi = bytes[2 * (i / 8) + 1];
            group = lo as u16 + 256 * (hi as u16);
        }
        let k = i % 8;
        let code = ((group / (if k == 0 {
            1u16
        } else if k == 1 {
            4
        } else if k == 2 {
            16
        } else if k == 3 {
            64
        } else if k == 4 {
            256
        } else if k == 5 {
            1024
        } else if k == 6 {
            4096
        } else {
            16384
        })) % 4) as u8;
        proof {
            lemma_word_slot_div(group, i as int % 8);
        }
        let tag = match SetType::from_bits(code) {
            Some(t) => t,
            Option::None => {
                proof {
                    assert(false);
                }
                SetType::Empty
            },
        };
        r.push(tag);
        i = i + 1;
    }
    proof {
        let s = spec_unpack_tags_legacy(bytes@, count as nat).unwrap();
        assert(r@ =~= s);
    }
    Some(r)
}

/// In a 16-bit group, slot `k` is the 2-bit field at `(w / 4^k) % 4`.
proof fn lemma_word_slot_div(w: u16, k: int)
    requires
        0 <= k < 8,
    ensures
        k == 0 ==> word_slot(w, k) == (w % 4) as u8,
        k == 1 ==> word_slot(w, k) == ((w / 4) % 4) as u8,
        k == 2 ==> word_slot(w, k) == ((w / 16) % 4) as u8,
        k == 3 ==> word_slot(w, k) == ((w / 64) % 4) as u8,
        k == 4 ==> word_slot(w, k) == ((w / 256) % 4) as u8,
        k == 5 ==> word_slot(w, k) == ((w / 1024) % 4) as u8,
        k == 6 ==> word_slot(w, k) == ((w / 4096) % 4) as u8,
        k == 7 ==> word_slot(w, k) == ((w / 16384) % 4) as u8,
{
    let lo = (w % 256) as u8;
    let hi = (w / 256) as u8;
    assert(w == lo + 256 * hi);
    if k < 4 {
        assert((w % 4) == (lo % 4) && ((w / 4) % 4) == ((lo / 4) % 4) && ((w / 16) % 4) == ((lo
            / 16) % 4) && ((w / 64) % 4) == ((lo / 64) % 4)) by (nonlinear_arith)
            requires
                w == lo + 256 * hi,
                lo < 256,
                hi < 256,
        ;
    } else {
        assert(((w / 256) % 4) == (hi % 4) && ((w / 1024) % 4) == ((hi / 4) % 4) && ((w / 4096) % 4)
            == ((hi / 16) % 4) && ((w / 16384) % 4) == ((hi / 64) % 4)) by (nonlinear_arith)
            requires
                w == lo + 256 * hi,
                lo < 256,
                hi < 256,
        ;
    }
}

/// Both tag readers agree: whenever the stream is long enough for the legacy
/// 16-bit-group cursor, the byte-wise reader succeeds too and the two yield
/// the same tag sequence.
pub proof fn lemma_tag_readers_agree(bytes: Seq<u8>, n: nat)
    requires
        2 * ((n + 7) / 8) <= bytes.len(),
    ensures
        spec_unpack_tags_legacy(bytes, n) is Some,
        spec_unpack_tags(bytes, n) is Some,
        spec_unpack_tags(bytes, n) == spec_unpack_tags_legacy(bytes, n),
{
    assert((n + 3) / 4 <= 2 * ((n + 7) / 8));
    let a = spec_unpack_tags(bytes, n).unwrap();
    let b = spec_unpack_tags_legacy(bytes, n).unwrap();
    assert forall|i: int| 0 <= i < n implies a[i] == b[i] by {
        let w = (bytes[2 * (i / 8)] + 256 * bytes[2 * (i / 8) + 1] as u16) as u16;
        let lo = (w % 256) as u8;
        let hi = (w / 256) as u8;
        assert(lo == bytes[2 * (i / 8)] && hi == bytes[2 * (i / 8) + 1]) by (nonlinear_arith)
            requires
                w == bytes[2 * (i / 8)] + 256 * bytes[2 * (i / 8) + 1],
                bytes[2 * (i / 8)] < 256,
                bytes[2 * (i / 8) + 1] < 256,
                lo == w % 256,
                hi == w / 256,
        ;
        if i % 8 < 4 {
            assert(2 * (i / 8) == i / 4 && i % 8 == i % 4) by (nonlinear_arith)
                requires
                    0 <= i,
                    i % 8 < 4,
            ;
        } else {
            assert(2 * (i / 8) + 1 == i / 4 && i % 8 == i % 4 + 4) by (nonlinear_arith)
                requires
                    0 <= i,
                    i % 8 >= 4,
            ;
        }
    }
    assert(a =~= b);
}

/// Unpacking inverts packing: reading back `tags.len()` tags from the packed
/// byte stream restores the tag sequence exactly.
pub proof fn lemma_unpack_pack(tags: Seq<SetType>)
    ensures
        spec_unpack_tags(spec_pack_tags(tags), tags.len()) == Some(tags),
{
    let bytes = spec_pack_tags(tags);
    let n = tags.len();
    assert((n + 3) / 4 <= bytes.len());
    let r = spec_unpack_tags(bytes, n).unwrap();
    assert forall|i: int| 0 <= i < n implies r[i] == tags[i] by {
        let q = i / 4;
        let k = i % 4;
        let a = slot_code(tags, 4 * q);
        let b = slot_code(tags, 4 * q + 1);
        let c = slot_code(tags, 4 * q + 2);
        let d = slot_code(tags, 4 * q + 3);
        let byte = (a + 4 * b + 16 * c + 64 * d) as u8;
        assert(bytes[i / 4] == byte);
        assert(byte % 4 == a && (byte / 4) % 4 == b && (byte / 16) % 4 == c && (byte / 64) % 4 == d)
            by (nonlinear_arith)
            requires
                byte == a + 4 * b + 16 * c + 64 * d,
                a < 4,
                b < 4,
                c < 4,
                d < 4,
        ;
        assert(4 * q + k == i);
        assert(byte_slot(byte, k) == slot_code(tags, i));
        assert(spec_from_bits(tag_code(tags[i])) == Some(tags[i]));
    }
    assert(r =~= tags);
}

} // verus!
