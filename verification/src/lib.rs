//! Codec and classification library for a little-endian animation-keyframe
//! record format.
//!
//! A record stores one scalar animation track per channel. Each channel is
//! tagged with a 2-bit code (empty / single pose / linear keys / smooth keys)
//! and the tag stream, the channel payloads and the bone-index array are laid
//! out behind an offset-indirected 32-byte preamble. Channel values are
//! 32-bit IEEE-754 floats on disk; this crate carries them as their raw bit
//! patterns (`u32`), which the codec moves byte-for-byte.
//!
//! The crate decodes raw bytes into a flat [`Motion`], reclassifies the flat
//! channel list into per-bone animations ([`qualified::QualifiedMotion`])
//! driven by an external bone-type taxonomy, reorders the result into the
//! canonical bone sequence, and encodes either form back to bytes.

use vstd::prelude::*;

pub mod tags;
pub mod bytes;
pub mod write;
pub mod read;
pub mod qualified;
pub mod roundtrip;
pub mod qualified_write;

verus! {

/// One keyframe of a linearly interpolated channel: a frame index and the
/// raw bit pattern of the 32-bit float value at that frame.
#[derive(Debug, Clone, PartialEq, Eq, Structural, Copy)]
pub struct Keyframe {
    pub frame: u16,
    pub value: u32,
}

/// One keyframe of a smoothly interpolated channel: a plain keyframe plus
/// the raw bit pattern of its interpolation (tangent) factor.
#[derive(Debug, Clone, PartialEq, Eq, Structural, Copy)]
pub struct InterpKeyframe {
    pub keyframe: Keyframe,
    pub interpolation: u32,
}

/// The value of one animation channel over time.
///
/// The variant determines the channel's 2-bit tag and its payload layout:
/// `Empty` contributes no payload bytes, `Pose` a single float, `Linear` and
/// `Smooth` a counted keyframe list.
#[derive(Debug, Clone, PartialEq)]
pub enum FrameData {
    Empty,
    Pose(u32),
    Linear(Vec<Keyframe>),
    Smooth(Vec<InterpKeyframe>),
}

/// A flat motion record: the per-channel data in file order, and the bone
/// indices (into an external bone-name table) that consume those channels.
#[derive(Debug, Clone, PartialEq)]
pub struct Motion {
    pub sets: Vec<FrameData>,
    pub bones: Vec<usize>,
}

/// Specification-level value of one channel, with keyframe lists as
/// mathematical sequences.
pub enum ChannelModel {
    Empty,
    Pose(u32),
    Linear(Seq<Keyframe>),
    Smooth(Seq<InterpKeyframe>),
}

/// Specification-level value of a flat motion record.
pub struct MotionModel {
    pub sets: Seq<ChannelModel>,
    pub bones: Seq<usize>,
}

impl FrameData {
    /// The mathematical value of this channel.
    pub open spec fn model(self) -> ChannelModel {
        match self {
            FrameData::Empty => ChannelModel::Empty,
            FrameData::Pose(v) => ChannelModel::Pose(v),
            FrameData::Linear(ks) => ChannelModel::Linear(ks@),
            FrameData::Smooth(ks) => ChannelModel::Smooth(ks@),
        }
    }
}

impl Motion {
    /// The mathematical value of this record.
    pub open spec fn model(self) -> MotionModel {
        MotionModel {
            sets: self.sets@.map_values(|c: FrameData| c.model()),
            bones: self.bones@,
        }
    }
}

} // verus!
