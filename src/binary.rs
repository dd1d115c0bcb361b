//! The compact binary form: no field names and no self-description.
//!
//! Layout, little-endian throughout: the update interval as 4 bytes, the frame
//! count as 8 bytes, then each frame's slots in order, with no per-frame length.
//! An absent slot is the byte 0; a record is the byte 1 followed by its
//! identifier byte and its payload byte.
use vstd::prelude::*;
use crate::model::{DriverData, FrameModel, SequenceModel, UpdateFrame, VisualizationData, DecodeError, slots_are};

verus! {

/// The bytes of one slot.
pub open spec fn slot_bytes(s: Option<DriverData>) -> Seq<u8> {
    match s {
        None => seq![0u8],
        Some(d) => seq![1u8, d.driver_number, d.led_num],
    }
}

/// The bytes of one frame: its slots, one after another.
pub open spec fn frame_bytes(f: FrameModel) -> Seq<u8> {
    f.map_values(|s: Option<DriverData>| slot_bytes(s)).flatten()
}

/// The bytes of a list of frames, one after another.
pub open spec fn frames_bytes(fs: Seq<FrameModel>) -> Seq<u8> {
    fs.map_values(|f: FrameModel| frame_bytes(f)).flatten()
}

pub open spec fn u32_bytes(x: u32) -> Seq<u8> {
    seq![x as u8, (x >> 8u32) as u8, (x >> 16u32) as u8, (x >> 24u32) as u8]
}

pub open spec fn u64_bytes(x: u64) -> Seq<u8> {
    seq![
        x as u8, (x >> 8u64) as u8, (x >> 16u64) as u8, (x >> 24u64) as u8,
        (x >> 32u64) as u8, (x >> 40u64) as u8, (x >> 48u64) as u8, (x >> 56u64) as u8,
    ]
}

/// The binary form of a sequence.
pub open spec fn binary_bytes(s: SequenceModel) -> Seq<u8> {
    u32_bytes(s.update_rate_ms) + u64_bytes(s.frames.len() as u64) + frames_bytes(s.frames)
}

} // verus!

verus! {

proof fn lemma_frame_bytes_push(f: FrameModel, s: Option<DriverData>)
    ensures
        frame_bytes(f.push(s)) == frame_bytes(f) + slot_bytes(s),
{
    let g = |s: Option<DriverData>| slot_bytes(s);
    f.lemma_push_map_commute(g, s);
    f.map_values(g).lemma_flatten_push(slot_bytes(s));
}

proof fn lemma_frames_bytes_push(fs: Seq<FrameModel>, f: FrameModel)
    ensures
        frames_bytes(fs.push(f)) == frames_bytes(fs) + frame_bytes(f),
{
    let g = |f: FrameModel| frame_bytes(f);
    fs.lemma_push_map_commute(g, f);
    fs.map_values(g).lemma_flatten_push(frame_bytes(f));
}

fn push_u32(out: &mut Vec<u8>, x: u32)
    ensures
        final(out)@ == old(out)@ + u32_bytes(x),
{
    out.push(x as u8);
    out.push((x >> 8u32) as u8);
    out.push((x >> 16u32) as u8);
    out.push((x >> 24u32) as u8);
    assert(final(out)@ =~= old(out)@ + u32_bytes(x));
}

fn push_u64(out: &mut Vec<u8>, x: u64)
    ensures
        final(out)@ == old(out)@ + u64_bytes(x),
{
    out.push(x as u8);
    out.push((x >> 8u64) as u8);
    out.push((x >> 16u64) as u8);
    out.push((x >> 24u64) as u8);
    out.push((x >> 32u64) as u8);
    out.push((x >> 40u64) as u8);
    out.push((x >> 48u64) as u8);
    out.push((x >> 56u64) as u8);
    assert(final(out)@ =~= old(out)@ + u64_bytes(x));
}

fn push_frame(out: &mut Vec<u8>, f: &UpdateFrame)
    ensures
        final(out)@ == old(out)@ + frame_bytes(f@),
{
    let mut i: usize = 0;
    while i < f.frame.len()
        invariant
            i <= f@.len(),
            out@ == old(out)@ + frame_bytes(f@.take(i as int)),
        decreases f@.len() - i,
    {
        let s = f.frame[i];
        match s {
            None => {
                out.push(0u8);
            },
            Some(d) => {
                out.push(1u8);
                out.push(d.driver_number);
                out.push(d.led_num);
            },
        }
        proof {
            lemma_frame_bytes_push(f@.take(i as int), s);
            assert(f@.take(i as int).push(s) =~= f@.take(i + 1));
        }
        i = i + 1;
        assert(out@ =~= old(out)@ + frame_bytes(f@.take(i as int)));
    }
    assert(f@.take(i as int) =~= f@);
}

/// Encodes a sequence in the binary form. Never fails.
pub fn encode_binary(v: &VisualizationData) -> (r: Vec<u8>)
    ensures
        r@ == binary_bytes(v@),
{
    let mut out: Vec<u8> = Vec::new();
    push_u32(&mut out, v.update_rate_ms);
    push_u64(&mut out, v.frames.len() as u64);
    let ghost head = out@;
    let mut i: usize = 0;
    while i < v.frames.len()
        invariant
            i <= v@.frames.len(),
            head == u32_bytes(v.update_rate_ms) + u64_bytes(v@.frames.len() as u64),
            out@ == head + frames_bytes(v@.frames.take(i as int)),
        decreases v@.frames.len() - i,
    {
        push_frame(&mut out, &v.frames[i]);
        proof {
            lemma_frames_bytes_push(v@.frames.take(i as int), v@.frames[i as int]);
            assert(v@.frames.take(i as int).push(v@.frames[i as int]) =~= v@.frames.take(i + 1));
        }
        i = i + 1;
        assert(out@ =~= head + frames_bytes(v@.frames.take(i as int)));
    }
    assert(v@.frames.take(i as int) =~= v@.frames);
    out
}

} // verus!

verus! {

/// The little-endian 32-bit integer at `p`.
pub open spec fn le_u32(b: Seq<u8>, p: int) -> u32 {
    (b[p] as u32) | ((b[p + 1] as u32) << 8u32) | ((b[p + 2] as u32) << 16u32) | ((b[p + 3] as u32)
        << 24u32)
}

/// The little-endian 64-bit integer at `p`.
pub open spec fn le_u64(b: Seq<u8>, p: int) -> u64 {
    (b[p] as u64) | ((b[p + 1] as u64) << 8u64) | ((b[p + 2] as u64) << 16u64) | ((b[p + 3] as u64)
        << 24u64) | ((b[p + 4] as u64) << 32u64) | ((b[p + 5] as u64) << 40u64) | ((b[p + 6] as u64)
        << 48u64) | ((b[p + 7] as u64) << 56u64)
}

/// Reads `n` slots from position `pos`: the slots and the position after them.
pub open spec fn slots_from(b: Seq<u8>, pos: int, n: nat) -> Option<(FrameModel, int)>
    decreases n,
{
    if n == 0 {
        Some((Seq::empty(), pos))
    } else if !(0 <= pos < b.len()) {
        None
    } else if b[pos] == 0 {
        match slots_from(b, pos + 1, (n - 1) as nat) {
            Some((t, e)) => Some((seq![None::<DriverData>] + t, e)),
            None => None,
        }
    } else if b[pos] == 1 && pos + 3 <= b.len() {
        let d = DriverData { driver_number: b[pos + 1], led_num: b[pos + 2] };
        match slots_from(b, pos + 3, (n - 1) as nat) {
            Some((t, e)) => Some((seq![Some(d)] + t, e)),
            None => None,
        }
    } else {
        None
    }
}

/// Reads `n` frames of `k` slots from position `pos`.
pub open spec fn frames_from(b: Seq<u8>, pos: int, n: nat, k: nat) -> Option<(Seq<FrameModel>, int)>
    decreases n,
{
    if n == 0 {
        Some((Seq::empty(), pos))
    } else {
        match slots_from(b, pos, k) {
            Some((f, e)) => match frames_from(b, e, (n - 1) as nat, k) {
                Some((t, e2)) => Some((seq![f] + t, e2)),
                None => None,
            },
            None => None,
        }
    }
}

/// What a byte string decodes to in the binary form with `k` slots per frame,
/// if anything: all bytes must be used.
pub open spec fn binary_decoded(b: Seq<u8>, k: nat) -> Option<SequenceModel> {
    if b.len() < 12 {
        None
    } else {
        match frames_from(b, 12, le_u64(b, 4) as nat, k) {
            Some((fs, e)) => if e == b.len() {
                Some(SequenceModel { update_rate_ms: le_u32(b, 0), frames: fs })
            } else {
                None
            },
            None => None,
        }
    }
}

/// Reads the frame of `k` slots that starts at `start`.
fn decode_frame_at(b: &Vec<u8>, start: usize, k: usize) -> (r: Option<(UpdateFrame, usize)>)
    requires
        start <= b@.len(),
    ensures
        match r {
            Some((f, e)) => slots_from(b@, start as int, k as nat) == Some((f@, e as int))
                && f@.len() == k && start <= e <= b@.len(),
            None => slots_from(b@, start as int, k as nat) is None,
        },
{
    let mut slots: Vec<Option<DriverData>> = Vec::new();
    let mut pos: usize = start;
    let mut i: usize = 0;
    while i < k
        invariant
            start <= pos <= b@.len(),
            i <= k,
            slots@.len() == i,
            slots_from(b@, start as int, k as nat) == match slots_from(
                b@,
                pos as int,
                (k - i) as nat,
            ) {
                Some((t, e)) => Some((slots@ + t, e)),
                None => None,
            },
        decreases k - i,
    {
        if pos >= b.len() {
            return None;
        }
        let tag = b[pos];
        let ghost old_slots = slots@;
        let ghost old_pos = pos as int;
        if tag == 0 {
            slots.push(None);
            pos = pos + 1;
        } else if tag == 1 && b.len() - pos >= 3 {
            slots.push(Some(DriverData { driver_number: b[pos + 1], led_num: b[pos + 2] }));
            pos = pos + 3;
        } else {
            return None;
        }
        i = i + 1;
        proof {
            let x = slots@.last();
            assert(slots@ == old_slots.push(x));
            match slots_from(b@, pos as int, (k - i) as nat) {
                Some((t, e)) => {
                    assert(old_slots + (seq![x] + t) =~= slots@ + t);
                },
                None => {},
            }
        }
    }
    proof {
        assert(slots@ + Seq::<Option<DriverData>>::empty() =~= slots@);
    }
    Some((UpdateFrame { frame: slots }, pos))
}

} // verus!

verus! {

/// Decodes the binary form, expecting `k` slots in every frame.
pub fn decode_binary(b: &Vec<u8>, k: usize) -> (r: Result<VisualizationData, DecodeError>)
    ensures
        match binary_decoded(b@, k as nat) {
            Some(s) => r matches Ok(v) && v@ == s && v.wf(k as nat),
            None => r == Err::<VisualizationData, DecodeError>(DecodeError::MalformedInput),
        },
{
    if b.len() < 12 {
        return Err(DecodeError::MalformedInput);
    }
    let rate: u32 = (b[0] as u32) | ((b[1] as u32) << 8u32) | ((b[2] as u32) << 16u32) | ((
    b[3] as u32) << 24u32);
    let n: u64 = (b[4] as u64) | ((b[5] as u64) << 8u64) | ((b[6] as u64) << 16u64) | ((
    b[7] as u64) << 24u64) | ((b[8] as u64) << 32u64) | ((b[9] as u64) << 40u64) | ((
    b[10] as u64) << 48u64) | ((b[11] as u64) << 56u64);
    let mut frames: Vec<UpdateFrame> = Vec::new();
    let mut pos: usize = 12;
    let mut i: u64 = 0;
    while i < n
        invariant
            12 <= pos <= b@.len(),
            i <= n,
            n == le_u64(b@, 4),
            forall|j: int| 0 <= j < frames@.len() ==> (#[trigger] frames@[j])@.len() == k,
            frames_from(b@, 12, n as nat, k as nat) == match frames_from(
                b@,
                pos as int,
                (n - i) as nat,
                k as nat,
            ) {
                Some((t, e)) => Some((frames@.map_values(|f: UpdateFrame| f@) + t, e)),
                None => None,
            },
        decreases n - i,
    {
        let ghost old_fs = frames@.map_values(|f: UpdateFrame| f@);
        match decode_frame_at(b, pos, k) {
            Some((f, e)) => {
                let ghost fv = f@;
                frames.push(f);
                pos = e;
                i = i + 1;
                proof {
                    assert(frames@.map_values(|f: UpdateFrame| f@) =~= old_fs.push(fv));
                    match frames_from(b@, pos as int, (n - i) as nat, k as nat) {
                        Some((t, e2)) => {
                            assert(old_fs + (seq![fv] + t) =~= old_fs.push(fv) + t);
                        },
                        None => {},
                    }
                }
            },
            None => {
                return Err(DecodeError::MalformedInput);
            },
        }
    }
    if pos != b.len() {
        return Err(DecodeError::MalformedInput);
    }
    let v = VisualizationData { update_rate_ms: rate, frames };
    proof {
        assert(v@.frames + Seq::<FrameModel>::empty() =~= v@.frames);
        assert forall|j: int| 0 <= j < v@.frames.len() implies #[trigger] v@.frames[j].len() == k by {
            assert(v.frames@[j]@.len() == k);
        }
    }
    Ok(v)
}

} // verus!

verus! {

proof fn lemma_frame_bytes_first(f: FrameModel)
    requires
        f.len() > 0,
    ensures
        frame_bytes(f) == slot_bytes(f[0]) + frame_bytes(f.drop_first()),
{
    let g = |s: Option<DriverData>| slot_bytes(s);
    assert(f.map_values(g).drop_first() =~= f.drop_first().map_values(g));
}

proof fn lemma_frames_bytes_first(fs: Seq<FrameModel>)
    requires
        fs.len() > 0,
    ensures
        frames_bytes(fs) == frame_bytes(fs[0]) + frames_bytes(fs.drop_first()),
{
    let g = |f: FrameModel| frame_bytes(f);
    assert(fs.map_values(g).drop_first() =~= fs.drop_first().map_values(g));
}

proof fn lemma_slots_from_frame_bytes(b: Seq<u8>, pos: int, f: FrameModel)
    requires
        0 <= pos,
        pos + frame_bytes(f).len() <= b.len(),
        b.subrange(pos, pos + frame_bytes(f).len()) == frame_bytes(f),
    ensures
        slots_from(b, pos, f.len()) == Some((f, pos + frame_bytes(f).len())),
    decreases f.len(),
{
    let total = frame_bytes(f);
    if f.len() == 0 {
        assert(f =~= Seq::<Option<DriverData>>::empty());
    } else {
        lemma_frame_bytes_first(f);
        let head = slot_bytes(f[0]);
        let rest = f.drop_first();
        let next_pos = pos + head.len();
        assert(b[pos] == b.subrange(pos, pos + total.len())[0]);
        assert forall|j: int| 0 <= j < frame_bytes(rest).len() implies b.subrange(
            next_pos,
            next_pos + frame_bytes(rest).len(),
        )[j] == frame_bytes(rest)[j] by {
            assert(b[next_pos + j] == b.subrange(pos, pos + total.len())[head.len() + j]);
            assert(total[head.len() + j] == frame_bytes(rest)[j]);
        }
        assert(b.subrange(next_pos, next_pos + frame_bytes(rest).len()) =~= frame_bytes(rest));
        lemma_slots_from_frame_bytes(b, next_pos, rest);
        if f[0] is Some {
            assert(b[pos + 1] == b.subrange(pos, pos + total.len())[1]);
            assert(b[pos + 2] == b.subrange(pos, pos + total.len())[2]);
        }
        assert(f =~= seq![f[0]] + rest);
    }
}

proof fn lemma_frames_from_frames_bytes(b: Seq<u8>, pos: int, fs: Seq<FrameModel>, k: nat)
    requires
        0 <= pos,
        pos + frames_bytes(fs).len() <= b.len(),
        b.subrange(pos, pos + frames_bytes(fs).len()) == frames_bytes(fs),
        forall|i: int| 0 <= i < fs.len() ==> #[trigger] fs[i].len() == k,
    ensures
        frames_from(b, pos, fs.len(), k) == Some((fs, pos + frames_bytes(fs).len())),
    decreases fs.len(),
{
    let total = frames_bytes(fs);
    if fs.len() == 0 {
        assert(fs =~= Seq::<FrameModel>::empty());
    } else {
        lemma_frames_bytes_first(fs);
        let head = frame_bytes(fs[0]);
        let rest = fs.drop_first();
        let next_pos = pos + head.len();
        assert forall|j: int| 0 <= j < head.len() implies b.subrange(pos, next_pos)[j] == head[j] by {
            assert(b[pos + j] == b.subrange(pos, pos + total.len())[j]);
            assert(total[j] == head[j]);
        }
        assert(b.subrange(pos, next_pos) =~= head);
        lemma_slots_from_frame_bytes(b, pos, fs[0]);
        assert forall|j: int| 0 <= j < frames_bytes(rest).len() implies b.subrange(
            next_pos,
            next_pos + frames_bytes(rest).len(),
        )[j] == frames_bytes(rest)[j] by {
            assert(b[next_pos + j] == b.subrange(pos, pos + total.len())[head.len() + j]);
            assert(total[head.len() + j] == frames_bytes(rest)[j]);
        }
        assert(b.subrange(next_pos, next_pos + frames_bytes(rest).len()) =~= frames_bytes(rest));
        assert forall|i: int| 0 <= i < rest.len() implies #[trigger] rest[i].len() == k by {
            assert(rest[i] == fs[i + 1]);
        }
        lemma_frames_from_frames_bytes(b, next_pos, rest, k);
        assert(fs =~= seq![fs[0]] + rest);
    }
}

proof fn lemma_u32_round_trip(x: u32)
    ensures
        le_u32(u32_bytes(x), 0) == x,
{
    let b = u32_bytes(x);
    let (b0, b1, b2, b3) = (b[0], b[1], b[2], b[3]);
    assert(b0 == x as u8 && b1 == (x >> 8u32) as u8 && b2 == (x >> 16u32) as u8 && b3 == (x
        >> 24u32) as u8);
    assert((b0 as u32) | ((b1 as u32) << 8u32) | ((b2 as u32) << 16u32) | ((b3 as u32) << 24u32)
        == x) by (bit_vector)
        requires
            b0 == x as u8,
            b1 == (x >> 8u32) as u8,
            b2 == (x >> 16u32) as u8,
            b3 == (x >> 24u32) as u8,
    ;
}

proof fn lemma_u64_round_trip(x: u64)
    ensures
        le_u64(u64_bytes(x), 0) == x,
{
    let b = u64_bytes(x);
    let (b0, b1, b2, b3, b4, b5, b6, b7) = (b[0], b[1], b[2], b[3], b[4], b[5], b[6], b[7]);
    assert(b0 == x as u8 && b1 == (x >> 8u64) as u8 && b2 == (x >> 16u64) as u8 && b3 == (x
        >> 24u64) as u8 && b4 == (x >> 32u64) as u8 && b5 == (x >> 40u64) as u8 && b6 == (x
        >> 48u64) as u8 && b7 == (x >> 56u64) as u8);
    assert((b0 as u64) | ((b1 as u64) << 8u64) | ((b2 as u64) << 16u64) | ((b3 as u64) << 24u64)
        | ((b4 as u64) << 32u64) | ((b5 as u64) << 40u64) | ((b6 as u64) << 48u64) | ((b7 as u64)
        << 56u64) == x) by (bit_vector)
        requires
            b0 == x as u8,
            b1 == (x >> 8u64) as u8,
            b2 == (x >> 16u64) as u8,
            b3 == (x >> 24u64) as u8,
            b4 == (x >> 32u64) as u8,
            b5 == (x >> 40u64) as u8,
            b6 == (x >> 48u64) as u8,
            b7 == (x >> 56u64) as u8,
    ;
}

/// Round trip of the binary form: the bytes that encode a sequence whose frames
/// all have `k` slots decode, with `k` slots expected, to that same sequence.
pub proof fn lemma_binary_round_trip(s: SequenceModel, k: nat)
    requires
        slots_are(s, k),
        s.frames.len() <= u64::MAX,
    ensures
        binary_decoded(binary_bytes(s), k) == Some(s),
{
    let b = binary_bytes(s);
    let n = s.frames.len() as u64;
    lemma_u32_round_trip(s.update_rate_ms);
    lemma_u64_round_trip(n);
    assert(b.subrange(0, 4) =~= u32_bytes(s.update_rate_ms));
    assert(b.subrange(4, 12) =~= u64_bytes(n));
    assert(le_u32(b, 0) == le_u32(u32_bytes(s.update_rate_ms), 0));
    assert(le_u64(b, 4) == le_u64(u64_bytes(n), 0));
    assert(b.subrange(12, b.len() as int) =~= frames_bytes(s.frames));
    lemma_frames_from_frames_bytes(b, 12, s.frames, k);
}

} // verus!

verus! {

/// Decodes the binary form as `decode_binary` does and, where `expected` is
/// given, requires exactly that many frames.
pub fn decode_binary_expecting(b: &Vec<u8>, k: usize, expected: Option<usize>) -> (r: Result<
    VisualizationData,
    DecodeError,
>)
    ensures
        match binary_decoded(b@, k as nat) {
            None => r == Err::<VisualizationData, DecodeError>(DecodeError::MalformedInput),
            Some(s) => match expected {
                Some(n) if n != s.frames.len() => r == Err::<VisualizationData, DecodeError>(
                    DecodeError::FrameCountMismatch { expected: n, found: s.frames.len() as usize },
                ),
                _ => r matches Ok(v) && v@ == s && v.wf(k as nat),
            },
        },
{
    let v = decode_binary(b, k)?;
    if let Some(n) = expected {
        if n != v.frames.len() {
            return Err(DecodeError::FrameCountMismatch { expected: n, found: v.frames.len() });
        }
    }
    Ok(v)
}

} // verus!
