//! Splitting of coded video into independently decodable pieces.
//!
//! The heart of the crate locates picture boundaries in a start-code
//! delimited elementary stream (`scan`, `scanner`), and regroups the
//! pictures into segments that begin with a refresh picture (`segment`,
//! `bin`). Everything works on byte buffers held in memory; reading and
//! writing files is left to the caller.

pub mod bin;
pub mod codec;
pub mod cursor;
pub mod frame_size;
pub mod ivf;
pub mod laws;
pub mod psnr;
pub mod rescan;
pub mod scan;
pub mod scanner;
pub mod segment;
pub mod text;
pub mod webm;
pub mod yuv;

use vstd::prelude::*;

verus! {

/// One coded picture (access unit) cut out of an elementary stream, or one
/// frame of a container with declared frame lengths.
///
/// For an access unit, `frame_header[k]` is the raw type code of its k-th
/// NAL unit and `frame_location[k]` the offset in `frame_data` at which that
/// unit begins (at the first zero byte of its start code). For a container
/// frame, `frame_header` holds the frame's header bytes and `frame_location`
/// is empty.
#[derive(Debug)]
pub struct Bitstream {
    pub frame_header: Vec<u8>,
    pub frame_location: Vec<usize>,
    pub frame_data: Vec<u8>,
    pub idr_flag: bool,
}

/// What a `Bitstream` holds, as mathematical sequences.
pub struct BitstreamView {
    pub frame_header: Seq<u8>,
    pub frame_location: Seq<usize>,
    pub frame_data: Seq<u8>,
    pub idr_flag: bool,
}

impl View for Bitstream {
    type V = BitstreamView;

    open spec fn view(&self) -> BitstreamView {
        BitstreamView {
            frame_header: self.frame_header@,
            frame_location: self.frame_location@,
            frame_data: self.frame_data@,
            idr_flag: self.idr_flag,
        }
    }
}

impl Bitstream {
    /// Whether the locations describe units that lie one after the other
    /// inside the buffer, one location for each type code.
    pub fn is_well_formed(&self) -> (ok: bool)
        ensures
            ok == self@.wf(),
    {
        let count = self.frame_location.len();
        if self.frame_header.len() != count {
            return false;
        }
        let mut k: usize = 0;
        while k < count
            invariant
                count == self.frame_location@.len(),
                0 <= k <= count,
                forall|i: int|
                    0 <= i < k ==> #[trigger] self.frame_location@[i] <= self.frame_data@.len(),
                forall|i: int, j: int|
                    0 <= i <= j < k ==> self.frame_location@[i] <= self.frame_location@[j],
            decreases count - k,
        {
            if self.frame_location[k] > self.frame_data.len() {
                return false;
            }
            if k > 0 && self.frame_location[k - 1] > self.frame_location[k] {
                assert(!(self.frame_location@[k - 1] <= self.frame_location@[k as int]));
                return false;
            }
            assert forall|i: int, j: int| 0 <= i <= j < k + 1 implies self.frame_location@[i]
                <= self.frame_location@[j] by {
                if j == k && i < k {
                    assert(self.frame_location@[i] <= self.frame_location@[k - 1]);
                }
            }
            k = k + 1;
        }
        true
    }
}

impl BitstreamView {
    /// Well-formedness of an access unit: one location per unit, the units
    /// lie one after the other inside the buffer.
    pub open spec fn wf(self) -> bool {
        &&& self.frame_header.len() == self.frame_location.len()
        &&& forall|k: int|
            0 <= k < self.frame_location.len() ==> #[trigger] self.frame_location[k]
                <= self.frame_data.len()
        &&& forall|j: int, k: int|
            0 <= j <= k < self.frame_location.len() ==> self.frame_location[j]
                <= self.frame_location[k]
    }

    /// Where the k-th unit ends: at the start of the next one, or at the end
    /// of the buffer.
    pub open spec fn unit_end(self, k: int) -> int {
        if k + 1 < self.frame_location.len() {
            self.frame_location[k + 1] as int
        } else {
            self.frame_data.len() as int
        }
    }

    /// The bytes of the k-th unit, start code included.
    pub open spec fn unit_bytes(self, k: int) -> Seq<u8> {
        self.frame_data.subrange(self.frame_location[k] as int, self.unit_end(k))
    }
}

} // verus!
