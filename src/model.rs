//! The data model: entity records, frames of slots, and the sequence of frames.
use vstd::prelude::*;

verus! {

/// The slot capacity of a frame in the observed schema.
pub const SLOTS: usize = 20;

/// One tracked entity's value in one frame.
#[derive(Clone, Copy, Debug, PartialEq, Eq, Structural)]
pub struct DriverData {
    pub driver_number: u8,
    pub led_num: u8,
}

/// The slots of one frame, as a mathematical sequence.
pub type FrameModel = Seq<Option<DriverData>>;

/// One time sample: an ordered array of slots, each holding a record or absent.
#[derive(Debug)]
pub struct UpdateFrame {
    pub frame: Vec<Option<DriverData>>,
}

impl View for UpdateFrame {
    type V = FrameModel;

    open spec fn view(&self) -> FrameModel {
        self.frame@
    }
}

impl UpdateFrame {
    /// A frame of `k` slots, all absent.
    pub fn empty(k: usize) -> (r: UpdateFrame)
        ensures
            r@ == Seq::new(k as nat, |i: int| None::<DriverData>),
    {
        let mut frame: Vec<Option<DriverData>> = Vec::new();
        let mut i: usize = 0;
        while i < k
            invariant
                i <= k,
                frame@ == Seq::new(i as nat, |j: int| None::<DriverData>),
            decreases k - i,
        {
            frame.push(None);
            i = i + 1;
            assert(frame@ =~= Seq::new(i as nat, |j: int| None::<DriverData>));
        }
        UpdateFrame { frame }
    }

    /// The number of slots.
    pub fn len(&self) -> (r: usize)
        ensures
            r == self@.len(),
    {
        self.frame.len()
    }

    /// The content of slot `i`.
    pub fn slot(&self, i: usize) -> (r: Option<DriverData>)
        requires
            i < self@.len(),
        ensures
            r == self@[i as int],
    {
        self.frame[i]
    }
}

/// A whole sequence, as a mathematical value: the update interval and the frames.
pub struct SequenceModel {
    pub update_rate_ms: u32,
    pub frames: Seq<FrameModel>,
}

/// The whole dataset: the update interval in milliseconds and the frames in order.
#[derive(Debug)]
pub struct VisualizationData {
    pub update_rate_ms: u32,
    pub frames: Vec<UpdateFrame>,
}

impl View for VisualizationData {
    type V = SequenceModel;

    open spec fn view(&self) -> SequenceModel {
        SequenceModel {
            update_rate_ms: self.update_rate_ms,
            frames: self.frames@.map_values(|f: UpdateFrame| f@),
        }
    }
}

/// Every frame of `s` has exactly `k` slots.
pub open spec fn slots_are(s: SequenceModel, k: nat) -> bool {
    forall|i: int| 0 <= i < s.frames.len() ==> #[trigger] s.frames[i].len() == k
}

impl VisualizationData {
    /// Every frame holds exactly `k` slots.
    pub open spec fn wf(&self, k: nat) -> bool {
        slots_are(self@, k)
    }

    /// The number of frames.
    pub fn frame_count(&self) -> (r: usize)
        ensures
            r == self@.frames.len(),
    {
        self.frames.len()
    }
}

/// Why rows could not be turned into a sequence.
#[derive(Clone, Copy, Debug, PartialEq, Eq, Structural)]
pub enum ConvertError {
    /// Under the strict policy: the field at `column` of row `row` is not an
    /// unsigned integer that fits a payload.
    ParseFailure { row: usize, column: usize },
    /// Row `row` holds more entity fields than a frame has slots.
    ShapeMismatch { row: usize },
    /// The rows gave `found` frames where `expected` were required.
    FrameCountMismatch { expected: usize, found: usize },
}

/// Why a decode was refused.
#[derive(Clone, Copy, Debug, PartialEq, Eq, Structural)]
pub enum DecodeError {
    /// The input is truncated, has bytes left over, or breaks the layout.
    MalformedInput,
    /// The frame at this index does not hold the expected number of slots.
    SchemaMismatch { frame: usize },
    /// A number lies outside the range of the field that it fills.
    TypeMismatch,
    /// The artifact holds `found` frames where `expected` were required.
    FrameCountMismatch { expected: usize, found: usize },
}

} // verus!
