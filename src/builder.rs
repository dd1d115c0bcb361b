//! The frame builder: one row of text fields becomes one frame, and all rows
//! become a sequence.
//!
//! Addressing is by column position: the entity field at position `i` (counted
//! from 0 after the row label) fills slot `i`, with identifier `i + 1`.
use vstd::prelude::*;
use vstd::string::StrSliceExecFns;
use crate::model::{DriverData, FrameModel, SequenceModel, UpdateFrame, VisualizationData, ConvertError};

verus! {

pub open spec fn is_digit(c: char) -> bool {
    '0' <= c && c <= '9'
}

/// The number that a string of decimal digits denotes.
pub open spec fn digits_value(s: Seq<char>) -> nat
    decreases s.len(),
{
    if s.len() == 0 {
        0
    } else {
        digits_value(s.drop_last()) * 10 + (s.last() as nat - '0' as nat) as nat
    }
}

/// The digits of a field, after an optional leading `+`.
pub open spec fn unsigned_digits(s: Seq<char>) -> Seq<char> {
    if s.len() > 0 && s[0] == '+' {
        s.drop_first()
    } else {
        s
    }
}

/// The payload that a field denotes: one or more decimal digits after an
/// optional `+`, with a value of at most 255; nothing else is accepted.
pub open spec fn parse_u8(s: Seq<char>) -> Option<u8> {
    let d = unsigned_digits(s);
    if d.len() > 0 && (forall|i: int| 0 <= i < d.len() ==> is_digit(#[trigger] d[i]))
        && digits_value(d) <= 255 {
        Some(digits_value(d) as u8)
    } else {
        None
    }
}

/// Reads a field as a payload value.
pub fn parse_field(s: &String) -> (r: Option<u8>)
    ensures
        r == parse_u8(s@),
{
    let t = s.as_str();
    let n = t.unicode_len();
    let mut start: usize = 0;
    if n > 0 && t.get_char(0) == '+' {
        start = 1;
    }
    let ghost d = unsigned_digits(s@);
    assert(d =~= s@.subrange(start as int, n as int));
    if start == n {
        return None;
    }
    let mut v: u32 = 0;
    let mut i: usize = start;
    while i < n
        invariant
            start <= i <= n,
            n == s@.len(),
            t@ == s@,
            d == s@.subrange(start as int, n as int),
            d == unsigned_digits(s@),
            forall|j: int| 0 <= j < i - start ==> is_digit(#[trigger] d[j]),
            digits_value(d.take(i - start)) <= 255 ==> v == digits_value(d.take(i - start)),
            digits_value(d.take(i - start)) > 255 ==> v == 256,
        decreases n - i,
    {
        let c = t.get_char(i);
        if !('0' <= c && c <= '9') {
            assert(d[i - start] == c);
            assert(!is_digit(d[i - start]));
            return None;
        }
        let digit = (c as u32) - ('0' as u32);
        let ghost before = d.take(i - start);
        assert(d.take(i - start + 1).drop_last() =~= before);
        assert(d.take(i - start + 1).last() == c);
        if v <= 255 {
            v = v * 10 + digit;
            if v > 256 {
                v = 256;
            }
        }
        i = i + 1;
    }
    assert(d.take(n - start) =~= d);
    if v <= 255 {
        Some(v as u8)
    } else {
        None
    }
}

} // verus!

verus! {

/// The text of each field of a row.
pub open spec fn fields(row: Seq<String>) -> Seq<Seq<char>> {
    row.map_values(|s: String| s@)
}

/// The first column at or after `from` whose field is not a payload, or the
/// row's length if there is none.
pub open spec fn first_unparsable(fs: Seq<Seq<char>>, from: int) -> int
    decreases fs.len() - from,
{
    if from >= fs.len() {
        fs.len() as int
    } else if parse_u8(fs[from]) is None {
        from
    } else {
        first_unparsable(fs, from + 1)
    }
}

/// The content of slot `i` built from a row: a record with identifier `i + 1`
/// where the row has a payload at column `i + 1`, else absent.
pub open spec fn built_slot(fs: Seq<Seq<char>>, i: int) -> Option<DriverData> {
    if i + 1 < fs.len() {
        match parse_u8(fs[i + 1]) {
            Some(v) => Some(DriverData { driver_number: (i + 1) as u8, led_num: v }),
            None => None,
        }
    } else {
        None
    }
}

/// The frame of `k` slots built from a row.
pub open spec fn built_frame(fs: Seq<Seq<char>>, k: nat) -> FrameModel {
    Seq::new(k, |i: int| built_slot(fs, i))
}

/// The error that row number `ri` gives, if any: too many fields, or (under the
/// strict policy) the first field that is not a payload.
pub open spec fn row_error(fs: Seq<Seq<char>>, ri: usize, k: nat, lenient: bool) -> Option<
    ConvertError,
> {
    if fs.len() > k + 1 {
        Some(ConvertError::ShapeMismatch { row: ri })
    } else if !lenient && first_unparsable(fs, 1) < fs.len() {
        Some(ConvertError::ParseFailure { row: ri, column: first_unparsable(fs, 1) as usize })
    } else {
        None
    }
}

/// Builds the frame of `k` slots for row number `ri`. The row's first field is
/// its label and is ignored. Under the lenient policy a field that is not a
/// payload leaves its slot absent; under the strict one it fails the row.
pub fn build_frame(row: &Vec<String>, ri: usize, k: usize, lenient: bool) -> (r: Result<
    UpdateFrame,
    ConvertError,
>)
    requires
        k <= 255,
    ensures
        match row_error(fields(row@), ri, k as nat, lenient) {
            Some(e) => r == Err::<UpdateFrame, ConvertError>(e),
            None => r matches Ok(f) && f@ == built_frame(fields(row@), k as nat),
        },
        r matches Ok(f) ==> f@.len() == k,
        row@.len() > k + 1 ==> r == Err::<UpdateFrame, ConvertError>(
            ConvertError::ShapeMismatch { row: ri },
        ),
{
    let ghost fs = fields(row@);
    if row.len() > 0 && row.len() - 1 > k {
        return Err(ConvertError::ShapeMismatch { row: ri });
    }
    let mut frame: Vec<Option<DriverData>> = Vec::new();
    let mut i: usize = 0;
    while i < k
        invariant
            i <= k <= 255,
            fs == fields(row@),
            fs.len() <= k + 1,
            frame@ =~= Seq::new(i as nat, |j: int| built_slot(fs, j)),
            !lenient ==> first_unparsable(fs, 1) == first_unparsable(fs, i + 1),
        decreases k - i,
    {
        let mut slot: Option<DriverData> = None;
        if i + 1 < row.len() {
            assert(fs[i + 1] == row@[i + 1]@);
            match parse_field(&row[i + 1]) {
                Some(v) => {
                    slot = Some(DriverData { driver_number: (i + 1) as u8, led_num: v });
                },
                None => {
                    if !lenient {
                        return Err(ConvertError::ParseFailure { row: ri, column: i + 1 });
                    }
                },
            }
        }
        frame.push(slot);
        i = i + 1;
    }
    Ok(UpdateFrame { frame })
}

} // verus!

verus! {

/// The fields of every row of a table.
pub open spec fn table(rows: Seq<Vec<String>>) -> Seq<Seq<Seq<char>>> {
    rows.map_values(|r: Vec<String>| fields(r@))
}

/// The error of the first failing row at or after `from`, if any row fails.
pub open spec fn first_row_error(t: Seq<Seq<Seq<char>>>, from: int, k: nat, lenient: bool) -> Option<
    ConvertError,
>
    decreases t.len() - from,
{
    if from < 0 || from >= t.len() {
        None
    } else {
        match row_error(t[from], from as usize, k, lenient) {
            Some(e) => Some(e),
            None => first_row_error(t, from + 1, k, lenient),
        }
    }
}

/// The sequence built from a table: one frame per row, in row order.
pub open spec fn built_sequence(t: Seq<Seq<Seq<char>>>, k: nat, rate: u32) -> SequenceModel {
    SequenceModel { update_rate_ms: rate, frames: Seq::new(t.len(), |i: int| built_frame(t[i], k)) }
}

/// Builds the sequence from all rows (the header row excluded), with frames of
/// `k` slots and the given update interval. The first failing row fails the
/// whole run; where `expected` is given, the frame count must equal it.
pub fn build_sequence(
    rows: &Vec<Vec<String>>,
    k: usize,
    update_rate_ms: u32,
    expected: Option<usize>,
    lenient: bool,
) -> (r: Result<VisualizationData, ConvertError>)
    requires
        k <= 255,
    ensures
        match first_row_error(table(rows@), 0, k as nat, lenient) {
            Some(e) => r == Err::<VisualizationData, ConvertError>(e),
            None => match expected {
                Some(n) if n != rows@.len() => r == Err::<VisualizationData, ConvertError>(
                    ConvertError::FrameCountMismatch { expected: n, found: rows@.len() as usize },
                ),
                _ => r matches Ok(v) && v@ == built_sequence(table(rows@), k as nat, update_rate_ms)
                    && v.wf(k as nat),
            },
        },
{
    let ghost t = table(rows@);
    let mut frames: Vec<UpdateFrame> = Vec::new();
    let mut i: usize = 0;
    while i < rows.len()
        invariant
            i <= rows@.len(),
            k <= 255,
            t == table(rows@),
            first_row_error(t, 0, k as nat, lenient) == first_row_error(t, i as int, k as nat, lenient),
            frames@.len() == i,
            forall|j: int| 0 <= j < i ==> (#[trigger] frames@[j])@ == built_frame(t[j], k as nat),
        decreases rows@.len() - i,
    {
        assert(t[i as int] == fields(rows@[i as int]@));
        match build_frame(&rows[i], i, k, lenient) {
            Ok(f) => {
                frames.push(f);
            },
            Err(e) => {
                return Err(e);
            },
        }
        i = i + 1;
    }
    if let Some(n) = expected {
        if n != rows.len() {
            return Err(ConvertError::FrameCountMismatch { expected: n, found: rows.len() });
        }
    }
    let v = VisualizationData { update_rate_ms, frames };
    assert(v@.frames =~= built_sequence(t, k as nat, update_rate_ms).frames);
    Ok(v)
}

} // verus!
