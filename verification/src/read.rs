//! The record decoder.
//!
//! A record is read through four offset words at its head: the 16-bit
//! channel-count field (masked to its low fourteen bits), the packed tag
//! stream, the payload section and the bone-index array. Channels are then
//! decoded sequentially in tag order from the payload offset. Any field
//! that cannot be read from the buffer fails the whole decode; no partial
//! record is returned.

use vstd::prelude::*;

use crate::ChannelModel;
use crate::FrameData;
use crate::InterpKeyframe;
use crate::Keyframe;
use crate::Motion;
use crate::MotionModel;
use crate::bytes::le16;
use crate::bytes::le32;
use crate::bytes::read_u16;
use crate::bytes::read_u32;
use crate::tags::SetType;
use crate::tags::spec_unpack_tags;
use crate::tags::unpack_tags;

verus! {

/// A malformed record: some field could not be read from the buffer.
/// `at` is the byte position at which decoding gave up, as a diagnostic.
#[derive(Debug, Clone, Copy, PartialEq, Eq, Structural)]
pub struct ParseError {
    pub at: usize,
}

/// Decodes one channel at absolute position `pos`: the channel's value and
/// the position just past it, or nothing when the buffer is too short.
///
/// A keyed channel is a 16-bit key count, that many 16-bit frame indices,
/// the legacy alignment run of `position % 4` bytes, then the value records.
pub open spec fn parse_channel(bytes: Seq<u8>, pos: int, tag: SetType) -> Option<
    (ChannelModel, int),
> {
    match tag {
        SetType::Empty => Some((ChannelModel::Empty, pos)),
        SetType::Pose => if 0 <= pos && pos + 4 <= bytes.len() {
            Some(
                (
                    ChannelModel::Pose(
                        le32(bytes[pos], bytes[pos + 1], bytes[pos + 2], bytes[pos + 3]),
                    ),
                    pos + 4,
                ),
            )
        } else {
            None
        },
        SetType::Linear => if 0 <= pos && pos + 2 <= bytes.len() {
            let c = le16(bytes[pos], bytes[pos + 1]) as int;
            let fpos = pos + 2;
            if fpos + 2 * c <= bytes.len() {
                let vpos = fpos + 2 * c + (fpos + 2 * c) % 4;
                if vpos + 4 * c <= bytes.len() {
                    Some(
                        (
                            ChannelModel::Linear(
                                Seq::new(
                                    c as nat,
                                    |k: int|
                                        Keyframe {
                                            frame: le16(bytes[fpos + 2 * k], bytes[fpos + 2 * k + 1]),
                                            value: le32(
                                                bytes[vpos + 4 * k],
                                                bytes[vpos + 4 * k + 1],
                                                bytes[vpos + 4 * k + 2],
                                                bytes[vpos + 4 * k + 3],
                                            ),
                                        },
                                ),
                            ),
                            vpos + 4 * c,
                        ),
                    )
                } else {
                    None
                }
            } else {
                None
            }
        } else {
            None
        },
        SetType::Smooth => if 0 <= pos && pos + 2 <= bytes.len() {
            let c = le16(bytes[pos], bytes[pos + 1]) as int;
            let fpos = pos + 2;
            if fpos + 2 * c <= bytes.len() {
                let vpos = fpos + 2 * c + (fpos + 2 * c) % 4;
                if vpos + 8 * c <= bytes.len() {
                    Some(
                        (
                            ChannelModel::Smooth(
                                Seq::new(
                                    c as nat,
                                    |k: int|
                                        InterpKeyframe {
                                            keyframe: Keyframe {
                                                frame: le16(
                                                    bytes[fpos + 2 * k],
                                                    bytes[fpos + 2 * k + 1],
                                                ),
                                                value: le32(
                                                    bytes[vpos + 8 * k],
                                                    bytes[vpos + 8 * k + 1],
                                                    bytes[vpos + 8 * k + 2],
                                                    bytes[vpos + 8 * k + 3],
                                                ),
                                            },
                                            interpolation: le32(
                                                bytes[vpos + 8 * k + 4],
                                                bytes[vpos + 8 * k + 5],
                                                bytes[vpos + 8 * k + 6],
                                                bytes[vpos + 8 * k + 7],
                                            ),
                                        },
                                ),
                            ),
                            vpos + 8 * c,
                        ),
                    )
                } else {
                    None
                }
            } else {
                None
            }
        } else {
            None
        },
    }
}

/// Decodes the channels of a tag sequence, each at the position the
/// previous one left off.
pub open spec fn parse_channels(bytes: Seq<u8>, pos: int, tags: Seq<SetType>) -> Option<
    (Seq<ChannelModel>, int),
>
    decreases tags.len(),
{
    if tags.len() == 0 {
        Some((Seq::empty(), pos))
    } else {
        match parse_channel(bytes, pos, tags[0]) {
            None => None,
            Some((c, pos1)) => match parse_channels(bytes, pos1, tags.drop_first()) {
                None => None,
                Some((rest, end)) => Some((seq![c] + rest, end)),
            },
        }
    }
}

/// Reads 16-bit bone indices from `pos` until the terminating zero — the
/// second zero value read, the first being a true bone index — or until the
/// buffer runs out. The terminator is excluded from the result.
pub open spec fn parse_bones(bytes: Seq<u8>, pos: int, seen_zero: bool) -> Seq<usize>
    decreases bytes.len() - pos,
{
    if pos < 0 || pos + 2 > bytes.len() {
        Seq::empty()
    } else {
        let v = le16(bytes[pos], bytes[pos + 1]);
        if v == 0 && seen_zero {
            Seq::empty()
        } else {
            seq![v as usize] + parse_bones(bytes, pos + 2, seen_zero || v == 0)
        }
    }
}

/// Decodes a whole record.
///
/// The four 32-bit words at the head give, in order: the position of the
/// 16-bit channel-count field, the position of the packed tag stream, the
/// position of the payload section, and the position of the bone array.
/// The count field's two high bits are a version marker and are masked off.
pub open spec fn spec_parse(bytes: Seq<u8>) -> Option<MotionModel> {
    if bytes.len() < 16 {
        None
    } else {
        let off1 = le32(bytes[0], bytes[1], bytes[2], bytes[3]) as int;
        let off2 = le32(bytes[4], bytes[5], bytes[6], bytes[7]) as int;
        let ks_off = le32(bytes[8], bytes[9], bytes[10], bytes[11]) as int;
        let off4 = le32(bytes[12], bytes[13], bytes[14], bytes[15]) as int;
        if off1 + 2 > bytes.len() {
            None
        } else {
            let count = (le16(bytes[off1], bytes[off1 + 1]) % 0x4000) as nat;
            if off2 > bytes.len() {
                None
            } else {
                match spec_unpack_tags(bytes.skip(off2), count) {
                    None => None,
                    Some(tags) => match parse_channels(bytes, ks_off, tags) {
                        None => None,
                        Some((sets, _)) => Some(
                            MotionModel { sets, bones: parse_bones(bytes, off4, false) },
                        ),
                    },
                }
            }
        }
    }
}

/// What reading 16-bit values up to a sentinel yields: the values before
/// the terminating sentinel, and the position just past the terminator.
/// The first `occurrence` sentinel values read are not terminators: they
/// are kept in the result. Reading past the buffer's end yields nothing.
pub open spec fn spec_many_until_nth(bytes: Seq<u8>, pos: int, v: u16, occurrence: int) -> Option<
    (Seq<u16>, int),
>
    decreases bytes.len() - pos,
{
    if pos < 0 || pos + 2 > bytes.len() {
        None
    } else {
        let x = le16(bytes[pos], bytes[pos + 1]);
        if x == v && occurrence <= 0 {
            Some((Seq::empty(), pos + 2))
        } else if x == v {
            match spec_many_until_nth(bytes, pos + 2, v, occurrence - 1) {
                None => None,
                Some((rest, end)) => Some((seq![x] + rest, end)),
            }
        } else {
            match spec_many_until_nth(bytes, pos + 2, v, occurrence) {
                None => None,
                Some((rest, end)) => Some((seq![x] + rest, end)),
            }
        }
    }
}

/// Reads 16-bit little-endian values from `pos` until the sentinel `v`,
/// which is excluded from the result. Fails exactly when the buffer ends
/// before a sentinel is read.
pub fn many_until(buf: &[u8], pos: usize, v: u16) -> (r: Option<(Vec<u16>, usize)>)
    ensures
        match r {
            Some(p) => spec_many_until_nth(buf@, pos as int, v, 0) == Some((p.0@, p.1 as int)),
            None => spec_many_until_nth(buf@, pos as int, v, 0) is None,
        },
{
    many_until_nth(buf, pos, v, 0)
}

/// Reads 16-bit little-endian values from `pos` until the sentinel `v` has
/// been read `occurrence + 1` times; the first `occurrence` sentinels are
/// kept in the result, the last is the excluded terminator. Fails exactly
/// when the buffer ends first.
pub fn many_until_nth(buf: &[u8], pos: usize, v: u16, occurrence: usize) -> (r: Option<
    (Vec<u16>, usize),
>)
    ensures
        match r {
            Some(p) => spec_many_until_nth(buf@, pos as int, v, occurrence as int) == Some(
                (p.0@, p.1 as int),
            ),
            None => spec_many_until_nth(buf@, pos as int, v, occurrence as int) is None,
        },
{
    let len: usize = buf.len();
    let mut res: Vec<u16> = Vec::new();
    let mut cur: usize = pos;
    let mut o: usize = occurrence;
    loop
        invariant
            len == buf@.len(),
            pos <= cur,
            (match spec_many_until_nth(buf@, cur as int, v, o as int) {
                None => spec_many_until_nth(buf@, pos as int, v, occurrence as int) is None,
                Some((rest, end)) => spec_many_until_nth(buf@, pos as int, v, occurrence as int)
                    == Some((res@ + rest, end)),
            }),
        ensures
            (match spec_many_until_nth(buf@, cur as int, v, o as int) {
                None => spec_many_until_nth(buf@, pos as int, v, occurrence as int) is None,
                Some((rest, end)) => spec_many_until_nth(buf@, pos as int, v, occurrence as int)
                    == Some((res@ + rest, end)),
            }),
            cur > len || len - cur < 2 || (le16(buf@[cur as int], buf@[cur as int + 1]) == v && o
                == 0),
        decreases len - cur,
    {
        if cur > len || len - cur < 2 {
            break ;
        }
        let x: u16 = read_u16(buf, cur);
        if x == v && o == 0 {
            break ;
        }
        proof {
            let next_o: int = if x == v {
                o - 1
            } else {
                o as int
            };
            match spec_many_until_nth(buf@, cur + 2, v, next_o) {
                None => {},
                Some((rest, end)) => {
                    assert(res@ + (seq![x] + rest) =~= res@.push(x) + rest);
                },
            }
        }
        res.push(x);
        if x == v {
            o = o - 1;
        }
        cur = cur + 2;
    }
    if cur > len || len - cur < 2 {
        return None;
    }
    proof {
        assert(spec_many_until_nth(buf@, cur as int, v, o as int) == Some(
            (Seq::<u16>::empty(), cur + 2),
        ));
        assert(res@ + Seq::<u16>::empty() =~= res@);
    }
    Some((res, cur + 2))
}

/// Decodes one channel. Fails exactly when the specification parser does.
fn parse_channel_exec(buf: &[u8], pos: usize, tag: SetType) -> (r: Result<
    (FrameData, usize),
    ParseError,
>)
    ensures
        match r {
            Ok(p) => parse_channel(buf@, pos as int, tag) == Some((p.0.model(), p.1 as int)),
            Err(_) => parse_channel(buf@, pos as int, tag) is None,
        },
{
    let len: usize = buf.len();
    match tag {
        SetType::Empty => Ok((FrameData::Empty, pos)),
        SetType::Pose => {
            if pos > len || len - pos < 4 {
                return Err(ParseError { at: pos });
            }
            let v: u32 = read_u32(buf, pos);
            Ok((FrameData::Pose(v), pos + 4))
        },
        SetType::Linear => {
            if pos > len || len - pos < 2 {
                return Err(ParseError { at: pos });
            }
            let c: usize = read_u16(buf, pos) as usize;
            let fpos: usize = pos + 2;
            if len - fpos < 2 * c {
                return Err(ParseError { at: fpos });
            }
            let after: usize = fpos + 2 * c;
            let pad: usize = after % 4;
            let rem: usize = len - after;
            if rem < pad || rem - pad < 4 * c {
                return Err(ParseError { at: after });
            }
            let vpos: usize = after + pad;
            let mut ks: Vec<Keyframe> = Vec::new();
            let mut k: usize = 0;
            while k < c
                invariant
                    len == buf@.len(),
                    fpos + 2 * c <= len,
                    vpos + 4 * c <= len,
                    vpos == fpos + 2 * c + (fpos + 2 * c) % 4,
                    k <= c,
                    ks@.len() == k,
                    forall|j: int|
                        0 <= j < k ==> ks@[j] == (Keyframe {
                            frame: le16(buf@[fpos + 2 * j], buf@[fpos + 2 * j + 1]),
                            value: le32(
                                buf@[vpos + 4 * j],
                                buf@[vpos + 4 * j + 1],
                                buf@[vpos + 4 * j + 2],
                                buf@[vpos + 4 * j + 3],
                            ),
                        }),
                decreases c - k,
            {
                let frame: u16 = read_u16(buf, fpos + 2 * k);
                let value: u32 = read_u32(buf, vpos + 4 * k);
                ks.push(Keyframe { frame, value });
                k = k + 1;
            }
            proof {
                let m = parse_channel(buf@, pos as int, tag).unwrap().0;
                assert(ks@ =~= m->Linear_0);
            }
            Ok((FrameData::Linear(ks), vpos + 4 * c))
        },
        SetType::Smooth => {
            if pos > len || len - pos < 2 {
                return Err(ParseError { at: pos });
            }
            let c: usize = read_u16(buf, pos) as usize;
            let fpos: usize = pos + 2;
            if len - fpos < 2 * c {
                return Err(ParseError { at: fpos });
            }
            let after: usize = fpos + 2 * c;
            let pad: usize = after % 4;
            let rem: usize = len - after;
            if rem < pad || rem - pad < 8 * c {
                return Err(ParseError { at: after });
            }
            let vpos: usize = after + pad;
            let mut ks: Vec<InterpKeyframe> = Vec::new();
            let mut k: usize = 0;
            while k < c
                invariant
                    len == buf@.len(),
                    fpos + 2 * c <= len,
                    vpos + 8 * c <= len,
                    vpos == fpos + 2 * c + (fpos + 2 * c) % 4,
                    k <= c,
                    ks@.len() == k,
                    forall|j: int|
                        0 <= j < k ==> ks@[j] == (InterpKeyframe {
                            keyframe: Keyframe {
                                frame: le16(buf@[fpos + 2 * j], buf@[fpos + 2 * j + 1]),
                                value: le32(
                                    buf@[vpos + 8 * j],
                                    buf@[vpos + 8 * j + 1],
                                    buf@[vpos + 8 * j + 2],
                                    buf@[vpos + 8 * j + 3],
                                ),
                            },
                            interpolation: le32(
                                buf@[vpos + 8 * j + 4],
                                buf@[vpos + 8 * j + 5],
                                buf@[vpos + 8 * j + 6],
                                buf@[vpos + 8 * j + 7],
                            ),
                        }),
                decreases c - k,
            {
                let frame: u16 = read_u16(buf, fpos + 2 * k);
                let value: u32 = read_u32(buf, vpos + 8 * k);
                let interpolation: u32 = read_u32(buf, vpos + 8 * k + 4);
                ks.push(InterpKeyframe { keyframe: Keyframe { frame, value }, interpolation });
                k = k + 1;
            }
            proof {
                let m = parse_channel(buf@, pos as int, tag).unwrap().0;
                assert(ks@ =~= m->Smooth_0);
            }
            Ok((FrameData::Smooth(ks), vpos + 8 * c))
        },
    }
}

/// The channel loop's bookkeeping: what the whole channel section decodes
/// to is what the first `i` decoded channels give, continued from `pos`.
spec fn channels_inv(
    bytes: Seq<u8>,
    ks_off: int,
    tags: Seq<SetType>,
    pos: int,
    i: int,
    done: Seq<ChannelModel>,
) -> bool {
    parse_channels(bytes, ks_off, tags) == (match parse_channels(bytes, pos, tags.skip(i)) {
        None => None::<(Seq<ChannelModel>, int)>,
        Some((rest, end)) => Some((done + rest, end)),
    })
}

proof fn lemma_channels_inv_step(
    bytes: Seq<u8>,
    ks_off: int,
    tags: Seq<SetType>,
    pos: int,
    i: int,
    done: Seq<ChannelModel>,
    c: ChannelModel,
    pos2: int,
)
    requires
        channels_inv(bytes, ks_off, tags, pos, i, done),
        0 <= i < tags.len(),
        parse_channel(bytes, pos, tags[i]) == Some((c, pos2)),
    ensures
        channels_inv(bytes, ks_off, tags, pos2, i + 1, done.push(c)),
{
    let s = tags.skip(i);
    assert(s[0] == tags[i]);
    assert(s.drop_first() =~= tags.skip(i + 1));
    match parse_channels(bytes, pos2, tags.skip(i + 1)) {
        None => {
            assert(parse_channels(bytes, pos, s) is None);
        },
        Some((rest, end)) => {
            assert(parse_channels(bytes, pos, s) == Some((seq![c] + rest, end)));
            assert(done + (seq![c] + rest) =~= done.push(c) + rest);
        },
    }
}

proof fn lemma_channels_inv_fail(
    bytes: Seq<u8>,
    ks_off: int,
    tags: Seq<SetType>,
    pos: int,
    i: int,
    done: Seq<ChannelModel>,
)
    requires
        channels_inv(bytes, ks_off, tags, pos, i, done),
        0 <= i < tags.len(),
        parse_channel(bytes, pos, tags[i]) is None,
    ensures
        parse_channels(bytes, ks_off, tags) is None,
{
    let s = tags.skip(i);
    assert(s[0] == tags[i]);
}

proof fn lemma_channels_inv_finish(
    bytes: Seq<u8>,
    ks_off: int,
    tags: Seq<SetType>,
    pos: int,
    done: Seq<ChannelModel>,
)
    requires
        channels_inv(bytes, ks_off, tags, pos, tags.len() as int, done),
    ensures
        parse_channels(bytes, ks_off, tags) == Some((done, pos)),
{
    assert(tags.skip(tags.len() as int) =~= Seq::<SetType>::empty());
    assert(done + Seq::<ChannelModel>::empty() =~= done);
}

impl Motion {
    /// Decodes a record from a raw little-endian buffer.
    ///
    /// Succeeds exactly when the specification parser accepts the buffer,
    /// and then returns the record it denotes. On failure the error carries
    /// the byte position at which decoding gave up, as a diagnostic.
    pub fn parse(buf: &[u8]) -> (r: Result<Motion, ParseError>)
        ensures
            match r {
                Ok(mo) => spec_parse(buf@) == Some(mo.model()),
                Err(_) => spec_parse(buf@) is None,
            },
    {
        let len: usize = buf.len();
        if len < 16 {
            return Err(ParseError { at: 0 });
        }
        let off1: usize = read_u32(buf, 0) as usize;
        let off2: usize = read_u32(buf, 4) as usize;
        let ks_off: usize = read_u32(buf, 8) as usize;
        let off4: usize = read_u32(buf, 12) as usize;
        if off1 > len || len - off1 < 2 {
            return Err(ParseError { at: off1 });
        }
        let count: usize = (read_u16(buf, off1) % 0x4000) as usize;
        if off2 > len {
            return Err(ParseError { at: off2 });
        }
        let tail: &[u8] = vstd::slice::slice_subrange(buf, off2, len);
        proof {
            assert(tail@ =~= buf@.skip(off2 as int));
        }
        let tags: Vec<SetType> = match unpack_tags(tail, count) {
            Some(t) => t,
            None => {
                return Err(ParseError { at: off2 });
            },
        };
        let ghost gtags = tags@;
        let mut sets: Vec<FrameData> = Vec::new();
        let mut pos: usize = ks_off;
        let mut i: usize = 0;
        proof {
            assert(gtags.skip(0) =~= gtags);
            match parse_channels(buf@, ks_off as int, gtags) {
                None => {},
                Some((rest, end)) => {
                    assert(Seq::<ChannelModel>::empty() + rest =~= rest);
                },
            }
            assert(sets@.map_values(|c: FrameData| c.model()) =~= Seq::<ChannelModel>::empty());
        }
        while i < count
            invariant
                len == buf@.len(),
                count == gtags.len(),
                gtags == tags@,
                i <= count,
                sets@.len() == i,
                spec_parse(buf@) == (match parse_channels(buf@, ks_off as int, gtags) {
                    None => None::<MotionModel>,
                    Some(p) => Some(
                        (MotionModel { sets: p.0, bones: parse_bones(buf@, off4 as int, false) }),
                    ),
                }),
                channels_inv(
                    buf@,
                    ks_off as int,
                    gtags,
                    pos as int,
                    i as int,
                    sets@.map_values(|c: FrameData| c.model()),
                ),
            decreases count - i,
        {
            let ghost done = sets@.map_values(|c: FrameData| c.model());
            match parse_channel_exec(buf, pos, tags[i]) {
                Ok(p) => {
                    proof {
                        lemma_channels_inv_step(
                            buf@,
                            ks_off as int,
                            gtags,
                            pos as int,
                            i as int,
                            done,
                            p.0.model(),
                            p.1 as int,
                        );
                    }
                    let (c, pos2) = p;
                    sets.push(c);
                    pos = pos2;
                    proof {
                        assert(sets@.map_values(|c: FrameData| c.model()) =~= done.push(
                            p.0.model(),
                        ));
                    }
                },
                Err(e) => {
                    proof {
                        lemma_channels_inv_fail(
                            buf@,
                            ks_off as int,
                            gtags,
                            pos as int,
                            i as int,
                            done,
                        );
                    }
                    return Err(e);
                },
            }
            i = i + 1;
        }
        proof {
            lemma_channels_inv_finish(
                buf@,
                ks_off as int,
                gtags,
                pos as int,
                sets@.map_values(|c: FrameData| c.model()),
            );
        }
        let mut bones: Vec<usize> = Vec::new();
        let mut bpos: usize = off4;
        let mut seen: bool = false;
        loop
            invariant
                len == buf@.len(),
                off4 <= bpos,
                parse_bones(buf@, off4 as int, false) == bones@ + parse_bones(
                    buf@,
                    bpos as int,
                    seen,
                ),
            ensures
                parse_bones(buf@, off4 as int, false) == bones@,
            decreases len - bpos,
        {
            if bpos > len || len - bpos < 2 {
                proof {
                    assert(parse_bones(buf@, bpos as int, seen) =~= Seq::<usize>::empty());
                    assert(bones@ + Seq::<usize>::empty() =~= bones@);
                }
                break ;
            }
            let v: u16 = read_u16(buf, bpos);
            if v == 0 && seen {
                proof {
                    assert(parse_bones(buf@, bpos as int, seen) =~= Seq::<usize>::empty());
                    assert(bones@ + Seq::<usize>::empty() =~= bones@);
                }
                break ;
            }
            proof {
                assert(parse_bones(buf@, bpos as int, seen) == seq![v as usize] + parse_bones(
                    buf@,
                    bpos + 2,
                    seen || v == 0,
                ));
                assert(bones@ + (seq![v as usize] + parse_bones(buf@, bpos + 2, seen || v == 0))
                    =~= bones@.push(v as usize) + parse_bones(buf@, bpos + 2, seen || v == 0));
            }
            bones.push(v as usize);
            seen = seen || v == 0;
            bpos = bpos + 2;
        }
        Ok(Motion { sets, bones })
    }
}

} // verus!
