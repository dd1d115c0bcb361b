//! The consistency check: both encoded artifacts must decode to the same sequence.
use vstd::prelude::*;
use crate::model::{DriverData, SequenceModel, UpdateFrame, VisualizationData, DecodeError, slots_are};
use crate::binary::{binary_bytes, binary_decoded, decode_binary, lemma_binary_round_trip, slot_bytes, slots_from};
use crate::text::{decode_text, lemma_slot_at, lemma_text_round_trip, lit_at, slot_at, slot_text, text_bytes, text_decoded};

verus! {

/// Why the two artifacts were found inconsistent.
#[derive(Clone, Copy, Debug, PartialEq, Eq, Structural)]
pub enum ConsistencyError {
    /// The structured-text artifact does not decode.
    Text(DecodeError),
    /// The binary artifact does not decode.
    Binary(DecodeError),
    /// Both decode, to different sequences.
    Mismatch,
}

fn same_frame(a: &UpdateFrame, b: &UpdateFrame) -> (r: bool)
    ensures
        r == (a@ == b@),
{
    if a.frame.len() != b.frame.len() {
        return false;
    }
    let mut i: usize = 0;
    while i < a.frame.len()
        invariant
            i <= a@.len(),
            a@.len() == b@.len(),
            forall|j: int| 0 <= j < i ==> a@[j] == b@[j],
        decreases a@.len() - i,
    {
        if a.frame[i] != b.frame[i] {
            return false;
        }
        i = i + 1;
    }
    assert(a@ =~= b@);
    true
}

/// Whether two sequences are equal, field for field.
pub fn same_sequence(a: &VisualizationData, b: &VisualizationData) -> (r: bool)
    ensures
        r == (a@ == b@),
{
    if a.update_rate_ms != b.update_rate_ms || a.frames.len() != b.frames.len() {
        assert(a@.frames.len() == a.frames@.len() && b@.frames.len() == b.frames@.len());
        return false;
    }
    let mut i: usize = 0;
    while i < a.frames.len()
        invariant
            i <= a@.frames.len(),
            a@.frames.len() == b@.frames.len(),
            a.update_rate_ms == b.update_rate_ms,
            forall|j: int| 0 <= j < i ==> a@.frames[j] == b@.frames[j],
        decreases a@.frames.len() - i,
    {
        if !same_frame(&a.frames[i], &b.frames[i]) {
            assert(a@.frames[i as int] != b@.frames[i as int]);
            return false;
        }
        i = i + 1;
    }
    assert(a@.frames =~= b@.frames);
    true
}

/// Decodes both artifacts, with `k` slots per frame, and requires that they
/// give the same sequence, which is returned.
pub fn check_consistency(text: &Vec<u8>, bin: &Vec<u8>, k: usize) -> (r: Result<
    VisualizationData,
    ConsistencyError,
>)
    ensures
        match (text_decoded(text@, k as nat), binary_decoded(bin@, k as nat)) {
            (Err(x), _) => r == Err::<VisualizationData, ConsistencyError>(ConsistencyError::Text(x)),
            (Ok(_), None) => r == Err::<VisualizationData, ConsistencyError>(
                ConsistencyError::Binary(DecodeError::MalformedInput),
            ),
            (Ok(t), Some(u)) => if t == u {
                r matches Ok(v) && v@ == t
            } else {
                r == Err::<VisualizationData, ConsistencyError>(ConsistencyError::Mismatch)
            },
        },
{
    let a = match decode_text(text, k) {
        Ok(v) => v,
        Err(x) => {
            return Err(ConsistencyError::Text(x));
        },
    };
    let b = match decode_binary(bin, k) {
        Ok(v) => v,
        Err(x) => {
            return Err(ConsistencyError::Binary(x));
        },
    };
    if same_sequence(&a, &b) {
        Ok(a)
    } else {
        Err(ConsistencyError::Mismatch)
    }
}

/// Both forms round-trip, and agree with each other: for a sequence whose
/// frames all have `k` slots, decoding its structured text and decoding its
/// binary form give the same sequence, namely the one encoded.
pub proof fn lemma_cross_codec(s: SequenceModel, k: nat)
    requires
        slots_are(s, k),
        s.frames.len() <= u64::MAX,
    ensures
        text_decoded(text_bytes(s), k) == Ok::<SequenceModel, DecodeError>(s),
        binary_decoded(binary_bytes(s), k) == Some(s),
        text_decoded(text_bytes(s), k) matches Ok(t) && binary_decoded(binary_bytes(s), k) matches Some(u) && t == u,
{
    lemma_text_round_trip(s, k);
    lemma_binary_round_trip(s, k);
}

/// An absent slot is written differently from every record, the all-zero one
/// included, in both forms.
pub proof fn lemma_absent_is_distinct(d: DriverData)
    ensures
        slot_bytes(None) != slot_bytes(Some(d)),
        slot_text(None) != slot_text(Some(d)),
{
    assert(slot_bytes(None).len() != slot_bytes(Some(d)).len());
    assert(slot_text(None)[0] != slot_text(Some(d))[0]);
}

/// In any artifact, not only one that this library wrote: a slot written as
/// absent reads back as absent, and the all-zero record reads back as that
/// record, in the structured text (`null` against `{"driver_number":0,...}`)
/// and in the binary form (tag 0 against tag 1 with two zero bytes).
pub proof fn lemma_absent_and_zero_record_decode_apart(b: Seq<u8>, pos: int)
    ensures
        lit_at(b, pos, slot_text(None)) ==> slot_at(b, pos) == Ok::<
            (Option<DriverData>, int),
            DecodeError,
        >((None, pos + 4)),
        lit_at(b, pos, slot_text(Some(DriverData { driver_number: 0, led_num: 0 }))) ==> slot_at(
            b,
            pos,
        ) == Ok::<(Option<DriverData>, int), DecodeError>(
            (
                Some(DriverData { driver_number: 0, led_num: 0 }),
                pos + slot_text(Some(DriverData { driver_number: 0, led_num: 0 })).len(),
            ),
        ),
        0 <= pos < b.len() && b[pos] == 0 ==> slots_from(b, pos, 1) == Some(
            (seq![None::<DriverData>], pos + 1),
        ),
        0 <= pos && pos + 3 <= b.len() && b[pos] == 1 && b[pos + 1] == 0 && b[pos + 2] == 0
            ==> slots_from(b, pos, 1) == Some(
            (seq![Some(DriverData { driver_number: 0, led_num: 0 })], pos + 3),
        ),
{
    let zero = DriverData { driver_number: 0, led_num: 0 };
    let empty = Seq::<u8>::empty();
    if lit_at(b, pos, slot_text(None)) {
        assert(slot_text(None) + empty =~= slot_text(None));
        lemma_slot_at(b, pos, None, empty);
    }
    if lit_at(b, pos, slot_text(Some(zero))) {
        assert(slot_text(Some(zero)) + empty =~= slot_text(Some(zero)));
        lemma_slot_at(b, pos, Some(zero), empty);
    }
    if 0 <= pos < b.len() && b[pos] == 0 {
        assert(slots_from(b, pos + 1, 0) == Some((Seq::<Option<DriverData>>::empty(), pos + 1)));
        assert(seq![None::<DriverData>] + Seq::<Option<DriverData>>::empty() =~= seq![None::<DriverData>]);
    }
    if 0 <= pos && pos + 3 <= b.len() && b[pos] == 1 && b[pos + 1] == 0 && b[pos + 2] == 0 {
        assert(slots_from(b, pos + 3, 0) == Some((Seq::<Option<DriverData>>::empty(), pos + 3)));
        assert(seq![Some(zero)] + Seq::<Option<DriverData>>::empty() =~= seq![Some(zero)]);
    }
}

} // verus!
