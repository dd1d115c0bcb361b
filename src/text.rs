//! The structured-text form: a compact JSON document with no whitespace,
//! `{"update_rate_ms":R,"frames":[F,...]}`, where each frame is an array of
//! slots and each slot is `null` or `{"driver_number":D,"led_num":L}`.
//! Numbers are written in decimal without leading zeros.
use vstd::prelude::*;
use crate::model::{DriverData, FrameModel, SequenceModel, UpdateFrame, VisualizationData, DecodeError, slots_are};

verus! {

/// `null`
pub open spec fn null_text() -> Seq<u8> {
    seq![110u8, 117u8, 108u8, 108u8]
}

/// `{"driver_number":`
pub open spec fn driver_key() -> Seq<u8> {
    seq![
        123u8, 34u8, 100u8, 114u8, 105u8, 118u8, 101u8, 114u8, 95u8, 110u8, 117u8, 109u8, 98u8,
        101u8, 114u8, 34u8, 58u8,
    ]
}

/// `,"led_num":`
pub open spec fn led_key() -> Seq<u8> {
    seq![44u8, 34u8, 108u8, 101u8, 100u8, 95u8, 110u8, 117u8, 109u8, 34u8, 58u8]
}

/// `{"update_rate_ms":`
pub open spec fn rate_key() -> Seq<u8> {
    seq![
        123u8, 34u8, 117u8, 112u8, 100u8, 97u8, 116u8, 101u8, 95u8, 114u8, 97u8, 116u8, 101u8,
        95u8, 109u8, 115u8, 34u8, 58u8,
    ]
}

/// `,"frames":`
pub open spec fn frames_key() -> Seq<u8> {
    seq![44u8, 34u8, 102u8, 114u8, 97u8, 109u8, 101u8, 115u8, 34u8, 58u8]
}

pub open spec fn is_digit_byte(c: u8) -> bool {
    48 <= c <= 57
}

/// The decimal digits of `n`, most significant first, without leading zeros.
pub open spec fn decimal(n: nat) -> Seq<u8>
    decreases n,
{
    if n < 10 {
        seq![(n + 48) as u8]
    } else {
        decimal(n / 10).push((n % 10 + 48) as u8)
    }
}

/// The text of one slot.
pub open spec fn slot_text(s: Option<DriverData>) -> Seq<u8> {
    match s {
        None => null_text(),
        Some(d) => driver_key() + decimal(d.driver_number as nat) + led_key() + decimal(
            d.led_num as nat,
        ) + seq![125u8],
    }
}

/// An element preceded by a comma.
pub open spec fn comma_then(x: Seq<u8>) -> Seq<u8> {
    seq![44u8] + x
}

/// The elements separated by commas.
pub open spec fn joined(items: Seq<Seq<u8>>) -> Seq<u8> {
    if items.len() == 0 {
        Seq::empty()
    } else {
        items[0] + items.drop_first().map_values(|x: Seq<u8>| comma_then(x)).flatten()
    }
}

/// A JSON array of the given element texts.
pub open spec fn array_text(items: Seq<Seq<u8>>) -> Seq<u8> {
    seq![91u8] + joined(items) + seq![93u8]
}

/// The text of one frame.
pub open spec fn frame_text(f: FrameModel) -> Seq<u8> {
    array_text(f.map_values(|s: Option<DriverData>| slot_text(s)))
}

/// The text of a list of frames.
pub open spec fn frames_text(fs: Seq<FrameModel>) -> Seq<u8> {
    array_text(fs.map_values(|f: FrameModel| frame_text(f)))
}

/// The structured-text form of a sequence.
pub open spec fn text_bytes(s: SequenceModel) -> Seq<u8> {
    rate_key() + decimal(s.update_rate_ms as nat) + frames_key() + frames_text(s.frames) + seq![
        125u8,
    ]
}

proof fn lemma_joined_push(items: Seq<Seq<u8>>, x: Seq<u8>)
    requires
        items.len() > 0,
    ensures
        joined(items.push(x)) == joined(items) + comma_then(x),
{
    let g = |x: Seq<u8>| comma_then(x);
    assert(items.push(x).drop_first() =~= items.drop_first().push(x));
    items.drop_first().lemma_push_map_commute(g, x);
    items.drop_first().map_values(g).lemma_flatten_push(comma_then(x));
    assert(items.push(x)[0] == items[0]);
}

fn push_bytes(out: &mut Vec<u8>, l: &Vec<u8>)
    ensures
        final(out)@ == old(out)@ + l@,
{
    let mut i: usize = 0;
    while i < l.len()
        invariant
            i <= l@.len(),
            out@ == old(out)@ + l@.take(i as int),
        decreases l@.len() - i,
    {
        out.push(l[i]);
        i = i + 1;
        assert(out@ =~= old(out)@ + l@.take(i as int));
    }
    assert(l@.take(i as int) =~= l@);
}

fn push_decimal(out: &mut Vec<u8>, n: u32)
    ensures
        final(out)@ == old(out)@ + decimal(n as nat),
    decreases n,
{
    if n >= 10 {
        push_decimal(out, n / 10);
    }
    out.push((n % 10 + 48) as u8);
    assert(final(out)@ =~= old(out)@ + decimal(n as nat));
}

fn null_bytes() -> (r: Vec<u8>)
    ensures
        r@ == null_text(),
{
    let r = vec![110u8, 117u8, 108u8, 108u8];
    assert(r@ =~= null_text());
    r
}

} // verus!

verus! {

fn driver_key_bytes() -> (r: Vec<u8>)
    ensures
        r@ == driver_key(),
{
    let r = vec![
        123u8, 34u8, 100u8, 114u8, 105u8, 118u8, 101u8, 114u8, 95u8, 110u8, 117u8, 109u8, 98u8,
        101u8, 114u8, 34u8, 58u8,
    ];
    assert(r@ =~= driver_key());
    r
}

fn led_key_bytes() -> (r: Vec<u8>)
    ensures
        r@ == led_key(),
{
    let r = vec![44u8, 34u8, 108u8, 101u8, 100u8, 95u8, 110u8, 117u8, 109u8, 34u8, 58u8];
    assert(r@ =~= led_key());
    r
}

fn rate_key_bytes() -> (r: Vec<u8>)
    ensures
        r@ == rate_key(),
{
    let r = vec![
        123u8, 34u8, 117u8, 112u8, 100u8, 97u8, 116u8, 101u8, 95u8, 114u8, 97u8, 116u8, 101u8,
        95u8, 109u8, 115u8, 34u8, 58u8,
    ];
    assert(r@ =~= rate_key());
    r
}

fn frames_key_bytes() -> (r: Vec<u8>)
    ensures
        r@ == frames_key(),
{
    let r = vec![44u8, 34u8, 102u8, 114u8, 97u8, 109u8, 101u8, 115u8, 34u8, 58u8];
    assert(r@ =~= frames_key());
    r
}

fn push_slot_text(out: &mut Vec<u8>, s: Option<DriverData>)
    ensures
        final(out)@ == old(out)@ + slot_text(s),
{
    match s {
        None => {
            push_bytes(out, &null_bytes());
        },
        Some(d) => {
            push_bytes(out, &driver_key_bytes());
            push_decimal(out, d.driver_number as u32);
            push_bytes(out, &led_key_bytes());
            push_decimal(out, d.led_num as u32);
            out.push(125u8);
        },
    }
    assert(final(out)@ =~= old(out)@ + slot_text(s));
}

fn push_frame_text(out: &mut Vec<u8>, f: &UpdateFrame)
    ensures
        final(out)@ == old(out)@ + frame_text(f@),
{
    let ghost g = |s: Option<DriverData>| slot_text(s);
    out.push(91u8);
    let mut i: usize = 0;
    while i < f.frame.len()
        invariant
            i <= f@.len(),
            g == (|s: Option<DriverData>| slot_text(s)),
            out@ == old(out)@ + seq![91u8] + joined(f@.take(i as int).map_values(g)),
        decreases f@.len() - i,
    {
        let ghost before = out@;
        if i > 0 {
            out.push(44u8);
        }
        push_slot_text(out, f.frame[i]);
        proof {
            let items = f@.take(i as int).map_values(g);
            let x = slot_text(f@[i as int]);
            assert(f@.take(i + 1) =~= f@.take(i as int).push(f@[i as int]));
            f@.take(i as int).lemma_push_map_commute(g, f@[i as int]);
            if i > 0 {
                lemma_joined_push(items, x);
                assert(out@ =~= before + comma_then(x));
            } else {
                assert(items.push(x) =~= seq![x]);
                assert(joined(seq![x]) =~= x);
            }
        }
        i = i + 1;
        assert(out@ =~= old(out)@ + seq![91u8] + joined(f@.take(i as int).map_values(g)));
    }
    out.push(93u8);
    assert(f@.take(i as int) =~= f@);
    assert(final(out)@ =~= old(out)@ + frame_text(f@));
}

/// Encodes a sequence in the structured-text form. Never fails.
pub fn encode_text(v: &VisualizationData) -> (r: Vec<u8>)
    ensures
        r@ == text_bytes(v@),
{
    let ghost g = |f: FrameModel| frame_text(f);
    let mut out: Vec<u8> = Vec::new();
    push_bytes(&mut out, &rate_key_bytes());
    push_decimal(&mut out, v.update_rate_ms);
    push_bytes(&mut out, &frames_key_bytes());
    let ghost head = out@;
    out.push(91u8);
    let mut i: usize = 0;
    while i < v.frames.len()
        invariant
            i <= v@.frames.len(),
            g == (|f: FrameModel| frame_text(f)),
            head == rate_key() + decimal(v.update_rate_ms as nat) + frames_key(),
            out@ == head + seq![91u8] + joined(v@.frames.take(i as int).map_values(g)),
        decreases v@.frames.len() - i,
    {
        let ghost before = out@;
        if i > 0 {
            out.push(44u8);
        }
        push_frame_text(&mut out, &v.frames[i]);
        proof {
            let fs = v@.frames;
            let items = fs.take(i as int).map_values(g);
            let x = frame_text(fs[i as int]);
            assert(fs.take(i + 1) =~= fs.take(i as int).push(fs[i as int]));
            fs.take(i as int).lemma_push_map_commute(g, fs[i as int]);
            if i > 0 {
                lemma_joined_push(items, x);
                assert(out@ =~= before + comma_then(x));
            } else {
                assert(items.push(x) =~= seq![x]);
                assert(joined(seq![x]) =~= x);
            }
        }
        i = i + 1;
        assert(out@ =~= head + seq![91u8] + joined(v@.frames.take(i as int).map_values(g)));
    }
    out.push(93u8);
    out.push(125u8);
    assert(v@.frames.take(i as int) =~= v@.frames);
    assert(out@ =~= text_bytes(v@));
    out
}

} // verus!

verus! {

/// The bytes of `l` stand in `b` at position `pos`.
pub open spec fn lit_at(b: Seq<u8>, pos: int, l: Seq<u8>) -> bool {
    0 <= pos && pos + l.len() <= b.len() && b.subrange(pos, pos + l.len()) == l
}

/// The end of the run of digits that starts at `pos`.
pub open spec fn digits_end(b: Seq<u8>, pos: int) -> int
    decreases b.len() - pos,
{
    if 0 <= pos < b.len() && is_digit_byte(b[pos]) {
        digits_end(b, pos + 1)
    } else {
        pos
    }
}

/// The number that a string of decimal digits denotes.
pub open spec fn digits_number(s: Seq<u8>) -> nat
    decreases s.len(),
{
    if s.len() == 0 {
        0
    } else {
        digits_number(s.drop_last()) * 10 + (s.last() - 48) as nat
    }
}

/// The unsigned number written at `pos` and the position after it: a
/// non-empty run of digits, without a leading zero unless it is `0`.
pub open spec fn unsigned_at(b: Seq<u8>, pos: int) -> Option<(nat, int)> {
    let e = digits_end(b, pos);
    if 0 <= pos && e > pos && !(b[pos] == 48 && e > pos + 1) {
        Some((digits_number(b.subrange(pos, e)), e))
    } else {
        None
    }
}

/// The integer written at `pos` and the position after it: an optional `-`
/// followed by an unsigned number.
pub open spec fn number_at(b: Seq<u8>, pos: int) -> Option<(int, int)> {
    if 0 <= pos < b.len() && b[pos] == 45 {
        match unsigned_at(b, pos + 1) {
            Some((m, e)) => Some((-m, e)),
            None => None,
        }
    } else {
        match unsigned_at(b, pos) {
            Some((m, e)) => Some((m as int, e)),
            None => None,
        }
    }
}

/// An integer lies in the range of a record field.
pub open spec fn fits_u8(x: int) -> bool {
    0 <= x <= 255
}

/// The slot written at `pos` and the position after it.
pub open spec fn slot_at(b: Seq<u8>, pos: int) -> Result<(Option<DriverData>, int), DecodeError> {
    if lit_at(b, pos, null_text()) {
        Ok((None, pos + 4))
    } else if lit_at(b, pos, driver_key()) {
        match number_at(b, pos + 17) {
            None => Err(DecodeError::MalformedInput),
            Some((x, e1)) => if !fits_u8(x) {
                Err(DecodeError::TypeMismatch)
            } else if !lit_at(b, e1, led_key()) {
                Err(DecodeError::MalformedInput)
            } else {
                match number_at(b, e1 + 11) {
                    None => Err(DecodeError::MalformedInput),
                    Some((y, e2)) => if !fits_u8(y) {
                        Err(DecodeError::TypeMismatch)
                    } else if !lit_at(b, e2, seq![125u8]) {
                        Err(DecodeError::MalformedInput)
                    } else {
                        Ok((Some(DriverData { driver_number: x as u8, led_num: y as u8 }), e2 + 1))
                    },
                }
            },
        }
    } else {
        Err(DecodeError::MalformedInput)
    }
}

/// The slots written from `pos` on, separated by commas, up to and including
/// the closing bracket.
pub open spec fn slots_after(b: Seq<u8>, pos: int) -> Result<(FrameModel, int), DecodeError>
    decreases b.len() - pos,
{
    if pos < 0 || pos >= b.len() {
        Err(DecodeError::MalformedInput)
    } else {
        match slot_at(b, pos) {
            Err(x) => Err(x),
            Ok((s, e)) => if pos < e < b.len() && b[e] == 44 {
                match slots_after(b, e + 1) {
                    Ok((t, e2)) => Ok((seq![s] + t, e2)),
                    Err(x) => Err(x),
                }
            } else if pos < e < b.len() && b[e] == 93 {
                Ok((seq![s], e + 1))
            } else {
                Err(DecodeError::MalformedInput)
            },
        }
    }
}

/// The frame written at `pos`, of any length, and the position after it.
pub open spec fn frame_at(b: Seq<u8>, pos: int) -> Result<(FrameModel, int), DecodeError> {
    if !lit_at(b, pos, seq![91u8]) {
        Err(DecodeError::MalformedInput)
    } else if lit_at(b, pos + 1, seq![93u8]) {
        Ok((Seq::empty(), pos + 2))
    } else {
        slots_after(b, pos + 1)
    }
}

/// The frames written from `pos` on, the first with index `idx`, up to and
/// including the closing bracket; each must hold `k` slots.
pub open spec fn frames_after(b: Seq<u8>, pos: int, idx: nat, k: nat) -> Result<
    (Seq<FrameModel>, int),
    DecodeError,
>
    decreases b.len() - pos,
{
    if pos < 0 || pos >= b.len() {
        Err(DecodeError::MalformedInput)
    } else {
        match frame_at(b, pos) {
            Err(x) => Err(x),
            Ok((f, e)) => if f.len() != k {
                Err(DecodeError::SchemaMismatch { frame: idx as usize })
            } else if pos < e < b.len() && b[e] == 44 {
                match frames_after(b, e + 1, idx + 1, k) {
                    Ok((t, e2)) => Ok((seq![f] + t, e2)),
                    Err(x) => Err(x),
                }
            } else if pos < e < b.len() && b[e] == 93 {
                Ok((seq![f], e + 1))
            } else {
                Err(DecodeError::MalformedInput)
            },
        }
    }
}

/// The list of frames written at `pos` and the position after it.
pub open spec fn frames_at(b: Seq<u8>, pos: int, k: nat) -> Result<(Seq<FrameModel>, int), DecodeError> {
    if !lit_at(b, pos, seq![91u8]) {
        Err(DecodeError::MalformedInput)
    } else if lit_at(b, pos + 1, seq![93u8]) {
        Ok((Seq::empty(), pos + 2))
    } else {
        frames_after(b, pos + 1, 0, k)
    }
}

/// What a document decodes to in the structured-text form with `k` slots per
/// frame, or the first fault found reading it from the front.
pub open spec fn text_decoded(b: Seq<u8>, k: nat) -> Result<SequenceModel, DecodeError> {
    if !lit_at(b, 0, rate_key()) {
        Err(DecodeError::MalformedInput)
    } else {
        match number_at(b, 18) {
            None => Err(DecodeError::MalformedInput),
            Some((r, e)) => if !(0 <= r <= u32::MAX) {
                Err(DecodeError::TypeMismatch)
            } else if !lit_at(b, e, frames_key()) {
                Err(DecodeError::MalformedInput)
            } else {
                match frames_at(b, e + 10, k) {
                    Err(x) => Err(x),
                    Ok((fs, e2)) => if lit_at(b, e2, seq![125u8]) && e2 + 1 == b.len() {
                        Ok(SequenceModel { update_rate_ms: r as u32, frames: fs })
                    } else {
                        Err(DecodeError::MalformedInput)
                    },
                }
            },
        }
    }
}

} // verus!

verus! {

fn single(c: u8) -> (r: Vec<u8>)
    ensures
        r@ == seq![c],
{
    let mut r: Vec<u8> = Vec::new();
    r.push(c);
    assert(r@ =~= seq![c]);
    r
}

fn lit_at_exec(b: &Vec<u8>, pos: usize, l: &Vec<u8>) -> (r: bool)
    ensures
        r == lit_at(b@, pos as int, l@),
{
    if pos > b.len() || b.len() - pos < l.len() {
        return false;
    }
    let mut i: usize = 0;
    while i < l.len()
        invariant
            pos + l@.len() <= b@.len(),
            b@.len() <= usize::MAX,
            i <= l@.len(),
            b@.subrange(pos as int, pos + i) == l@.take(i as int),
        decreases l@.len() - i,
    {
        if b[pos + i] != l[i] {
            assert(b@.subrange(pos as int, pos + l@.len())[i as int] != l@[i as int]);
            return false;
        }
        i = i + 1;
        assert(b@.subrange(pos as int, pos + i) =~= l@.take(i as int));
    }
    assert(l@.take(i as int) =~= l@);
    true
}

/// One past the largest value that the callers tell apart.
const NUMBER_CAP: u64 = 0x1_0000_0000;

/// Reads the unsigned number at `pos`; a value above `u32::MAX` comes back as
/// `NUMBER_CAP`.
fn unsigned_at_exec(b: &Vec<u8>, pos: usize) -> (r: Option<(u64, usize)>)
    ensures
        match unsigned_at(b@, pos as int) {
            None => r is None,
            Some((x, e)) => r matches Some((v, e2)) && e2 == e && (x <= u32::MAX ==> v == x) && (
            x > u32::MAX ==> v == NUMBER_CAP),
        },
{
    if pos >= b.len() {
        return None;
    }
    let mut acc: u64 = 0;
    let mut i: usize = pos;
    assert(b@.subrange(pos as int, pos as int) =~= Seq::<u8>::empty());
    while i < b.len() && 48 <= b[i] && b[i] <= 57
        invariant
            pos <= i,
            i <= b@.len() || i == pos,
            digits_end(b@, pos as int) == digits_end(b@, i as int),
            forall|j: int| pos <= j < i ==> is_digit_byte(#[trigger] b@[j]),
            digits_number(b@.subrange(pos as int, i as int)) <= u32::MAX ==> acc == digits_number(
                b@.subrange(pos as int, i as int),
            ),
            digits_number(b@.subrange(pos as int, i as int)) > u32::MAX ==> acc == NUMBER_CAP,
        decreases b@.len() - i,
    {
        let ghost before = b@.subrange(pos as int, i as int);
        let d = (b[i] - 48) as u64;
        assert(b@.subrange(pos as int, i + 1).drop_last() =~= before);
        if acc <= 0xffff_ffff {
            acc = acc * 10 + d;
            if acc > 0xffff_ffff {
                acc = NUMBER_CAP;
            }
        }
        i = i + 1;
    }
    if i == pos || (b[pos] == 48 && i > pos + 1) {
        return None;
    }
    Some((acc, i))
}

/// Reads the integer at `pos`: whether it has a sign, its magnitude as
/// `unsigned_at_exec` gives it, and the position after it.
fn number_at_exec(b: &Vec<u8>, pos: usize) -> (r: Option<(bool, u64, usize)>)
    ensures
        match number_at(b@, pos as int) {
            None => r is None,
            Some((x, e)) => r matches Some((neg, v, e2)) && e2 == e && ((neg && v > 0) <==> x < 0)
                && (0 <= x <= u32::MAX ==> v == x) && (x > u32::MAX ==> v == NUMBER_CAP),
        },
{
    if pos < b.len() && b[pos] == 45 {
        match unsigned_at_exec(b, pos + 1) {
            Some((v, e)) => Some((true, v, e)),
            None => None,
        }
    } else {
        match unsigned_at_exec(b, pos) {
            Some((v, e)) => Some((false, v, e)),
            None => None,
        }
    }
}

fn slot_at_exec(b: &Vec<u8>, pos: usize) -> (r: Result<(Option<DriverData>, usize), DecodeError>)
    ensures
        match slot_at(b@, pos as int) {
            Ok((s, e)) => r == Ok::<(Option<DriverData>, usize), DecodeError>((s, e as usize)) && e
                <= b@.len(),
            Err(x) => r == Err::<(Option<DriverData>, usize), DecodeError>(x),
        },
{
    let n = b.len();
    assert(null_text().len() == 4 && driver_key().len() == 17 && led_key().len() == 11);
    if lit_at_exec(b, pos, &null_bytes()) {
        return Ok((None, pos + 4));
    }
    if !lit_at_exec(b, pos, &driver_key_bytes()) {
        return Err(DecodeError::MalformedInput);
    }
    match number_at_exec(b, pos + 17) {
        None => Err(DecodeError::MalformedInput),
        Some((xneg, x, e1)) => {
            if (xneg && x > 0) || x > 255 {
                return Err(DecodeError::TypeMismatch);
            }
            if !lit_at_exec(b, e1, &led_key_bytes()) {
                return Err(DecodeError::MalformedInput);
            }
            match number_at_exec(b, e1 + 11) {
                None => Err(DecodeError::MalformedInput),
                Some((yneg, y, e2)) => {
                    if (yneg && y > 0) || y > 255 {
                        return Err(DecodeError::TypeMismatch);
                    }
                    if !lit_at_exec(b, e2, &single(125u8)) {
                        return Err(DecodeError::MalformedInput);
                    }
                    Ok((Some(DriverData { driver_number: x as u8, led_num: y as u8 }), e2 + 1))
                },
            }
        },
    }
}

} // verus!

verus! {

fn slots_after_exec(b: &Vec<u8>, start: usize) -> (r: Result<(UpdateFrame, usize), DecodeError>)
    ensures
        match slots_after(b@, start as int) {
            Ok((f, e)) => r matches Ok((v, e2)) && v@ == f && e2 == e && e <= b@.len(),
            Err(x) => r == Err::<(UpdateFrame, usize), DecodeError>(x),
        },
{
    let n = b.len();
    let mut slots: Vec<Option<DriverData>> = Vec::new();
    let mut pos: usize = start;
    loop
        invariant
            start <= pos,
            n == b@.len(),
            slots_after(b@, start as int) == match slots_after(b@, pos as int) {
                Ok((t, e)) => Ok((slots@ + t, e)),
                Err(x) => Err(x),
            },
        decreases b@.len() - pos,
    {
        if pos >= n {
            return Err(DecodeError::MalformedInput);
        }
        let ghost before = slots@;
        match slot_at_exec(b, pos) {
            Err(x) => {
                return Err(x);
            },
            Ok((s, e)) => {
                slots.push(s);
                if pos < e && e < n && b[e] == 44 {
                    proof {
                        match slots_after(b@, e + 1) {
                            Ok((t, e2)) => {
                                assert(before + (seq![s] + t) =~= slots@ + t);
                            },
                            Err(_) => {},
                        }
                    }
                    pos = e + 1;
                } else if pos < e && e < n && b[e] == 93 {
                    assert(before + seq![s] =~= slots@);
                    return Ok((UpdateFrame { frame: slots }, e + 1));
                } else {
                    return Err(DecodeError::MalformedInput);
                }
            },
        }
    }
}

fn frame_at_exec(b: &Vec<u8>, pos: usize) -> (r: Result<(UpdateFrame, usize), DecodeError>)
    ensures
        match frame_at(b@, pos as int) {
            Ok((f, e)) => r matches Ok((v, e2)) && v@ == f && e2 == e && e <= b@.len(),
            Err(x) => r == Err::<(UpdateFrame, usize), DecodeError>(x),
        },
{
    let n = b.len();
    if !lit_at_exec(b, pos, &single(91u8)) {
        return Err(DecodeError::MalformedInput);
    }
    if lit_at_exec(b, pos + 1, &single(93u8)) {
        let f = UpdateFrame { frame: Vec::new() };
        assert(f@ =~= Seq::<Option<DriverData>>::empty());
        return Ok((f, pos + 2));
    }
    slots_after_exec(b, pos + 1)
}

fn frames_at_exec(b: &Vec<u8>, pos: usize, k: usize) -> (r: Result<
    (Vec<UpdateFrame>, usize),
    DecodeError,
>)
    ensures
        match frames_at(b@, pos as int, k as nat) {
            Ok((fs, e)) => r matches Ok((v, e2)) && v@.map_values(|f: UpdateFrame| f@) == fs && e2
                == e && e <= b@.len(),
            Err(x) => r == Err::<(Vec<UpdateFrame>, usize), DecodeError>(x),
        },
        r matches Ok((v, _)) ==> forall|j: int| 0 <= j < v@.len() ==> (#[trigger] v@[j])@.len() == k,
{
    let n = b.len();
    if !lit_at_exec(b, pos, &single(91u8)) {
        return Err(DecodeError::MalformedInput);
    }
    if lit_at_exec(b, pos + 1, &single(93u8)) {
        let v: Vec<UpdateFrame> = Vec::new();
        assert(v@.map_values(|f: UpdateFrame| f@) =~= Seq::<FrameModel>::empty());
        return Ok((v, pos + 2));
    }
    frames_after_exec(b, pos + 1, k)
}

fn frames_after_exec(b: &Vec<u8>, start: usize, k: usize) -> (r: Result<
    (Vec<UpdateFrame>, usize),
    DecodeError,
>)
    ensures
        match frames_after(b@, start as int, 0, k as nat) {
            Ok((fs, e)) => r matches Ok((v, e2)) && v@.map_values(|f: UpdateFrame| f@) == fs && e2
                == e && e <= b@.len(),
            Err(x) => r == Err::<(Vec<UpdateFrame>, usize), DecodeError>(x),
        },
        r matches Ok((v, _)) ==> forall|j: int| 0 <= j < v@.len() ==> (#[trigger] v@[j])@.len() == k,
{
    let n = b.len();
    let mut frames: Vec<UpdateFrame> = Vec::new();
    let mut pos: usize = start;
    loop
        invariant
            start <= pos,
            n == b@.len(),
            frames@.len() <= pos,
            forall|j: int| 0 <= j < frames@.len() ==> (#[trigger] frames@[j])@.len() == k,
            frames_after(b@, start as int, 0, k as nat) == match frames_after(
                b@,
                pos as int,
                frames@.len(),
                k as nat,
            ) {
                Ok((t, e)) => Ok((frames@.map_values(|f: UpdateFrame| f@) + t, e)),
                Err(x) => Err(x),
            },
        decreases b@.len() - pos,
    {
        if pos >= n {
            return Err(DecodeError::MalformedInput);
        }
        let ghost before = frames@.map_values(|f: UpdateFrame| f@);
        let idx = frames.len();
        match frame_at_exec(b, pos) {
            Err(x) => {
                return Err(x);
            },
            Ok((f, e)) => {
                if f.frame.len() != k {
                    return Err(DecodeError::SchemaMismatch { frame: idx });
                }
                let ghost fv = f@;
                frames.push(f);
                assert(frames@.map_values(|f: UpdateFrame| f@) =~= before.push(fv));
                if pos < e && e < n && b[e] == 44 {
                    proof {
                        match frames_after(b@, e + 1, frames@.len(), k as nat) {
                            Ok((t, e2)) => {
                                assert(before + (seq![fv] + t) =~= before.push(fv) + t);
                            },
                            Err(_) => {},
                        }
                    }
                    pos = e + 1;
                } else if pos < e && e < n && b[e] == 93 {
                    assert(before + seq![fv] =~= before.push(fv));
                    return Ok((frames, e + 1));
                } else {
                    return Err(DecodeError::MalformedInput);
                }
            },
        }
    }
}

/// Decodes the structured-text form, expecting `k` slots in every frame. Only
/// the compact layout that `encode_text` writes is read: no whitespace between
/// tokens, and the two keys in their order.
pub fn decode_text(b: &Vec<u8>, k: usize) -> (r: Result<VisualizationData, DecodeError>)
    ensures
        match text_decoded(b@, k as nat) {
            Ok(s) => r matches Ok(v) && v@ == s && v.wf(k as nat),
            Err(x) => r == Err::<VisualizationData, DecodeError>(x),
        },
{
    let n = b.len();
    assert(rate_key().len() == 18 && frames_key().len() == 10);
    if !lit_at_exec(b, 0, &rate_key_bytes()) {
        return Err(DecodeError::MalformedInput);
    }
    match number_at_exec(b, 18) {
        None => Err(DecodeError::MalformedInput),
        Some((neg, rate, e)) => {
            if (neg && rate > 0) || rate > 0xffff_ffff {
                return Err(DecodeError::TypeMismatch);
            }
            if !lit_at_exec(b, e, &frames_key_bytes()) {
                return Err(DecodeError::MalformedInput);
            }
            let (frames, e2) = match frames_at_exec(b, e + 10, k) {
                Err(x) => {
                    return Err(x);
                },
                Ok(res) => res,
            };
            if !lit_at_exec(b, e2, &single(125u8)) || e2 + 1 != n {
                return Err(DecodeError::MalformedInput);
            }
            let v = VisualizationData { update_rate_ms: rate as u32, frames };
            assert(v@.frames =~= frames@.map_values(|f: UpdateFrame| f@));
            assert forall|j: int| 0 <= j < v@.frames.len() implies #[trigger] v@.frames[j].len()
                == k by {
                assert(v.frames@[j]@.len() == k);
            }
            Ok(v)
        },
    }
}

} // verus!

verus! {

proof fn lemma_decimal(n: nat)
    ensures
        decimal(n).len() >= 1,
        forall|i: int| 0 <= i < decimal(n).len() ==> is_digit_byte(#[trigger] decimal(n)[i]),
        digits_number(decimal(n)) == n,
        decimal(n)[0] == 48 ==> n == 0 && decimal(n).len() == 1,
    decreases n,
{
    if n < 10 {
        assert(decimal(n).drop_last() =~= Seq::<u8>::empty());
        assert(digits_number(Seq::<u8>::empty()) == 0);
    } else {
        lemma_decimal(n / 10);
        assert(decimal(n).drop_last() =~= decimal(n / 10));
        assert(decimal(n)[0] == decimal(n / 10)[0]);
        assert(decimal(n).last() == (n % 10 + 48) as u8);
        assert(n == (n / 10) * 10 + n % 10) by (nonlinear_arith);
        assert(((n % 10 + 48) as u8) - 48 == n % 10);
        assert(digits_number(decimal(n)) == digits_number(decimal(n / 10)) * 10 + n % 10);
    }
}

proof fn lemma_digits_end(b: Seq<u8>, pos: int, e: int)
    requires
        0 <= pos <= e <= b.len(),
        forall|j: int| pos <= j < e ==> is_digit_byte(#[trigger] b[j]),
        e == b.len() || !is_digit_byte(b[e]),
    ensures
        digits_end(b, pos) == e,
    decreases e - pos,
{
    if pos < e {
        lemma_digits_end(b, pos + 1, e);
    }
}

proof fn lemma_lit_split(b: Seq<u8>, pos: int, x: Seq<u8>, y: Seq<u8>)
    requires
        lit_at(b, pos, x + y),
    ensures
        lit_at(b, pos, x),
        lit_at(b, pos + x.len(), y),
{
    assert forall|j: int| 0 <= j < x.len() implies b.subrange(pos, pos + x.len())[j] == x[j] by {
        assert(b.subrange(pos, pos + (x + y).len())[j] == (x + y)[j]);
    }
    assert(b.subrange(pos, pos + x.len()) =~= x);
    assert forall|j: int| 0 <= j < y.len() implies b.subrange(
        pos + x.len(),
        pos + x.len() + y.len(),
    )[j] == y[j] by {
        assert(b.subrange(pos, pos + (x + y).len())[x.len() + j] == (x + y)[x.len() + j]);
    }
    assert(b.subrange(pos + x.len(), pos + x.len() + y.len()) =~= y);
}

proof fn lemma_lit_first(b: Seq<u8>, pos: int, x: Seq<u8>)
    requires
        lit_at(b, pos, x),
        x.len() > 0,
    ensures
        b[pos] == x[0],
{
    assert(b.subrange(pos, pos + x.len())[0] == x[0]);
}

proof fn lemma_number_at(b: Seq<u8>, pos: int, n: nat, next: Seq<u8>)
    requires
        lit_at(b, pos, decimal(n) + next),
        next.len() > 0,
        !is_digit_byte(next[0]),
    ensures
        number_at(b, pos) == Some((n as int, pos + decimal(n).len())),
{
    let d = decimal(n);
    let e = pos + d.len();
    lemma_decimal(n);
    lemma_lit_split(b, pos, d, next);
    lemma_lit_first(b, e, next);
    assert forall|j: int| pos <= j < e implies is_digit_byte(#[trigger] b[j]) by {
        assert(b.subrange(pos, e)[j - pos] == d[j - pos]);
    }
    lemma_digits_end(b, pos, e);
    lemma_lit_first(b, pos, d);
}

pub(crate) proof fn lemma_slot_at(b: Seq<u8>, pos: int, s: Option<DriverData>, next: Seq<u8>)
    requires
        lit_at(b, pos, slot_text(s) + next),
    ensures
        slot_at(b, pos) == Ok::<(Option<DriverData>, int), DecodeError>(
            (s, pos + slot_text(s).len()),
        ),
{
    lemma_lit_split(b, pos, slot_text(s), next);
    match s {
        None => {},
        Some(d) => {
            let d1 = decimal(d.driver_number as nat);
            let d2 = decimal(d.led_num as nat);
            let t = slot_text(s);
            assert(t == driver_key() + d1 + led_key() + d2 + seq![125u8]);
            lemma_lit_first(b, pos, t);
            assert(t[0] == 123u8);
            lemma_lit_split(b, pos, driver_key() + d1 + led_key() + d2, seq![125u8]);
            lemma_lit_split(b, pos, driver_key() + d1 + led_key(), d2);
            lemma_lit_split(b, pos, driver_key() + d1, led_key());
            lemma_lit_split(b, pos, driver_key(), d1);
            let num_start = pos + 17;
            let e1 = num_start + d1.len();
            let e2 = e1 + 11 + d2.len();
            assert(b.subrange(num_start, e1 + 11) =~= b.subrange(num_start, e1) + b.subrange(e1, e1 + 11));
            assert(lit_at(b, num_start, d1 + led_key()));
            lemma_number_at(b, num_start, d.driver_number as nat, led_key());
            assert(b.subrange(e1 + 11, e2 + 1) =~= b.subrange(e1 + 11, e2) + b.subrange(e2, e2 + 1));
            assert(lit_at(b, e1 + 11, d2 + seq![125u8]));
            lemma_number_at(b, e1 + 11, d.led_num as nat, seq![125u8]);
        },
    }
}

} // verus!

verus! {

proof fn lemma_joined_first(items: Seq<Seq<u8>>)
    requires
        items.len() > 0,
    ensures
        items.len() == 1 ==> joined(items) == items[0],
        items.len() > 1 ==> joined(items) == items[0] + (seq![44u8] + joined(items.drop_first())),
{
    let g = |x: Seq<u8>| comma_then(x);
    let rest = items.drop_first();
    if items.len() == 1 {
        assert(rest.map_values(g) =~= Seq::<Seq<u8>>::empty());
        assert(items[0] + Seq::<u8>::empty() =~= items[0]);
    } else {
        assert(rest.map_values(g).drop_first() =~= rest.drop_first().map_values(g));
        assert(rest.map_values(g).flatten() == comma_then(rest[0]) + rest.drop_first().map_values(
            g,
        ).flatten());
        assert(seq![44u8] + rest[0] + rest.drop_first().map_values(g).flatten() =~= seq![44u8] + (
        rest[0] + rest.drop_first().map_values(g).flatten()));
    }
}

proof fn lemma_slot_text_start(s: Option<DriverData>)
    ensures
        slot_text(s).len() > 0,
        slot_text(s)[0] == 110u8 || slot_text(s)[0] == 123u8,
{
}

proof fn lemma_slots_after(b: Seq<u8>, pos: int, f: FrameModel)
    requires
        f.len() > 0,
        lit_at(b, pos, joined(f.map_values(|s: Option<DriverData>| slot_text(s))) + seq![93u8]),
    ensures
        slots_after(b, pos) == Ok::<(FrameModel, int), DecodeError>(
            (f, pos + joined(f.map_values(|s: Option<DriverData>| slot_text(s))).len() + 1),
        ),
    decreases f.len(),
{
    let g = |s: Option<DriverData>| slot_text(s);
    let items = f.map_values(g);
    let rest = f.drop_first();
    let x = slot_text(f[0]);
    lemma_joined_first(items);
    lemma_slot_text_start(f[0]);
    let e = pos + x.len();
    if f.len() == 1 {
        lemma_slot_at(b, pos, f[0], seq![93u8]);
        lemma_lit_split(b, pos, x, seq![93u8]);
        lemma_lit_first(b, e, seq![93u8]);
        assert(f =~= seq![f[0]]);
    } else {
        assert(items.drop_first() =~= rest.map_values(g));
        let jr = joined(rest.map_values(g));
        assert(joined(items) + seq![93u8] =~= x + (seq![44u8] + (jr + seq![93u8])));
        lemma_slot_at(b, pos, f[0], seq![44u8] + (jr + seq![93u8]));
        lemma_lit_split(b, pos, x, seq![44u8] + (jr + seq![93u8]));
        lemma_lit_split(b, e, seq![44u8], jr + seq![93u8]);
        lemma_lit_first(b, e, seq![44u8]);
        lemma_slots_after(b, e + 1, rest);
        assert(f =~= seq![f[0]] + rest);
    }
}

proof fn lemma_frame_at(b: Seq<u8>, pos: int, f: FrameModel, next: Seq<u8>)
    requires
        lit_at(b, pos, frame_text(f) + next),
    ensures
        frame_at(b, pos) == Ok::<(FrameModel, int), DecodeError>((f, pos + frame_text(f).len())),
{
    let g = |s: Option<DriverData>| slot_text(s);
    let j = joined(f.map_values(g));
    lemma_lit_split(b, pos, frame_text(f), next);
    assert(frame_text(f) =~= seq![91u8] + (j + seq![93u8]));
    lemma_lit_split(b, pos, seq![91u8], j + seq![93u8]);
    if f.len() == 0 {
        assert(j =~= Seq::<u8>::empty());
        assert(j + seq![93u8] =~= seq![93u8]);
        assert(f =~= Seq::<Option<DriverData>>::empty());
    } else {
        lemma_joined_first(f.map_values(g));
        lemma_slot_text_start(f[0]);
        lemma_lit_first(b, pos + 1, j + seq![93u8]);
        lemma_lit_first(b, pos + 1, j + seq![93u8]);
        assert((j + seq![93u8])[0] == slot_text(f[0])[0]);
        lemma_slots_after(b, pos + 1, f);
    }
}

} // verus!

verus! {

proof fn lemma_frames_after(b: Seq<u8>, pos: int, fs: Seq<FrameModel>, idx: nat, k: nat)
    requires
        fs.len() > 0,
        forall|i: int| 0 <= i < fs.len() ==> #[trigger] fs[i].len() == k,
        lit_at(b, pos, joined(fs.map_values(|f: FrameModel| frame_text(f))) + seq![93u8]),
    ensures
        frames_after(b, pos, idx, k) == Ok::<(Seq<FrameModel>, int), DecodeError>(
            (fs, pos + joined(fs.map_values(|f: FrameModel| frame_text(f))).len() + 1),
        ),
    decreases fs.len(),
{
    let g = |f: FrameModel| frame_text(f);
    let items = fs.map_values(g);
    let rest = fs.drop_first();
    let x = frame_text(fs[0]);
    lemma_joined_first(items);
    let e = pos + x.len();
    assert(fs[0].len() == k);
    if fs.len() == 1 {
        lemma_frame_at(b, pos, fs[0], seq![93u8]);
        lemma_lit_split(b, pos, x, seq![93u8]);
        lemma_lit_first(b, e, seq![93u8]);
        assert(fs =~= seq![fs[0]]);
    } else {
        assert(items.drop_first() =~= rest.map_values(g));
        let jr = joined(rest.map_values(g));
        assert(joined(items) + seq![93u8] =~= x + (seq![44u8] + (jr + seq![93u8])));
        lemma_frame_at(b, pos, fs[0], seq![44u8] + (jr + seq![93u8]));
        lemma_lit_split(b, pos, x, seq![44u8] + (jr + seq![93u8]));
        lemma_lit_split(b, e, seq![44u8], jr + seq![93u8]);
        lemma_lit_first(b, e, seq![44u8]);
        assert forall|i: int| 0 <= i < rest.len() implies #[trigger] rest[i].len() == k by {
            assert(rest[i] == fs[i + 1]);
        }
        lemma_frames_after(b, e + 1, rest, idx + 1, k);
        assert(fs =~= seq![fs[0]] + rest);
    }
}

proof fn lemma_frames_at(b: Seq<u8>, pos: int, fs: Seq<FrameModel>, k: nat, next: Seq<u8>)
    requires
        forall|i: int| 0 <= i < fs.len() ==> #[trigger] fs[i].len() == k,
        lit_at(b, pos, frames_text(fs) + next),
    ensures
        frames_at(b, pos, k) == Ok::<(Seq<FrameModel>, int), DecodeError>(
            (fs, pos + frames_text(fs).len()),
        ),
{
    let g = |f: FrameModel| frame_text(f);
    let j = joined(fs.map_values(g));
    lemma_lit_split(b, pos, frames_text(fs), next);
    assert(frames_text(fs) =~= seq![91u8] + (j + seq![93u8]));
    lemma_lit_split(b, pos, seq![91u8], j + seq![93u8]);
    if fs.len() == 0 {
        assert(j =~= Seq::<u8>::empty());
        assert(j + seq![93u8] =~= seq![93u8]);
        assert(fs =~= Seq::<FrameModel>::empty());
    } else {
        lemma_joined_first(fs.map_values(g));
        lemma_lit_first(b, pos + 1, j + seq![93u8]);
        assert((j + seq![93u8])[0] == frame_text(fs[0])[0]);
        lemma_frames_after(b, pos + 1, fs, 0, k);
    }
}

proof fn lemma_text_decoded_from_parts(
    b: Seq<u8>,
    k: nat,
    rate: u32,
    e: int,
    fs: Seq<FrameModel>,
    e2: int,
)
    requires
        lit_at(b, 0, rate_key()),
        number_at(b, 18) == Some((rate as int, e)),
        lit_at(b, e, frames_key()),
        frames_at(b, e + 10, k) == Ok::<(Seq<FrameModel>, int), DecodeError>((fs, e2)),
        lit_at(b, e2, seq![125u8]),
        e2 + 1 == b.len(),
    ensures
        text_decoded(b, k) == Ok::<SequenceModel, DecodeError>(
            SequenceModel { update_rate_ms: rate, frames: fs },
        ),
{
}

proof fn lemma_text_parts(s: SequenceModel, k: nat)
    requires
        slots_are(s, k),
    ensures
        ({
            let b = text_bytes(s);
            let e: int = 18 + decimal(s.update_rate_ms as nat).len() as int;
            let e2: int = e + 10 + frames_text(s.frames).len() as int;
            &&& lit_at(b, 0, rate_key())
            &&& number_at(b, 18) == Some((s.update_rate_ms as int, e))
            &&& lit_at(b, e, frames_key())
            &&& frames_at(b, e + 10, k) == Ok::<(Seq<FrameModel>, int), DecodeError>((s.frames, e2))
            &&& lit_at(b, e2, seq![125u8])
            &&& e2 + 1 == b.len()
        }),
{
    let b = text_bytes(s);
    let d = decimal(s.update_rate_ms as nat);
    let ft = frames_text(s.frames);
    lemma_layout(b, rate_key(), d, frames_key(), ft, seq![125u8]);
    lemma_number_at(b, 18, s.update_rate_ms as nat, frames_key());
    let e: int = 18 + d.len() as int;
    lemma_frames_at(b, e + 10, s.frames, k, seq![125u8]);
}

proof fn lemma_layout(b: Seq<u8>, x: Seq<u8>, y: Seq<u8>, z: Seq<u8>, w: Seq<u8>, v: Seq<u8>)
    requires
        b == x + y + z + w + v,
    ensures
        b.len() == x.len() + y.len() + z.len() + w.len() + v.len(),
        lit_at(b, 0, x),
        lit_at(b, x.len() as int, y + z),
        lit_at(b, (x.len() + y.len()) as int, z),
        lit_at(b, (x.len() + y.len() + z.len()) as int, w + v),
        lit_at(b, (x.len() + y.len() + z.len() + w.len()) as int, v),
{
    assert(b.subrange(0, b.len() as int) =~= b);
    assert(b =~= x + (y + z) + (w + v));
    lemma_lit_split(b, 0, x + (y + z), w + v);
    lemma_lit_split(b, 0, x, y + z);
    lemma_lit_split(b, x.len() as int, y, z);
    lemma_lit_split(b, (x.len() + y.len() + z.len()) as int, w, v);
}

/// Round trip of the structured-text form: the text that encodes a sequence
/// whose frames all have `k` slots decodes, with `k` slots expected, to that
/// same sequence.
pub proof fn lemma_text_round_trip(s: SequenceModel, k: nat)
    requires
        slots_are(s, k),
    ensures
        text_decoded(text_bytes(s), k) == Ok::<SequenceModel, DecodeError>(s),
{
    lemma_text_parts(s, k);
    let e: int = 18 + decimal(s.update_rate_ms as nat).len() as int;
    let e2: int = e + 10 + frames_text(s.frames).len() as int;
    lemma_text_decoded_from_parts(text_bytes(s), k, s.update_rate_ms, e, s.frames, e2);
}

} // verus!

verus! {

/// Decodes the structured-text form as `decode_text` does and, where
/// `expected` is given, requires exactly that many frames.
pub fn decode_text_expecting(b: &Vec<u8>, k: usize, expected: Option<usize>) -> (r: Result<
    VisualizationData,
    DecodeError,
>)
    ensures
        match text_decoded(b@, k as nat) {
            Err(x) => r == Err::<VisualizationData, DecodeError>(x),
            Ok(s) => match expected {
                Some(n) if n != s.frames.len() => r == Err::<VisualizationData, DecodeError>(
                    DecodeError::FrameCountMismatch { expected: n, found: s.frames.len() as usize },
                ),
                _ => r matches Ok(v) && v@ == s && v.wf(k as nat),
            },
        },
{
    let v = decode_text(b, k)?;
    if let Some(n) = expected {
        if n != v.frames.len() {
            return Err(DecodeError::FrameCountMismatch { expected: n, found: v.frames.len() });
        }
    }
    Ok(v)
}

} // verus!
