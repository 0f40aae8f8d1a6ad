//! Regrouping of access units into segments that can be decoded on their
//! own: a segment begins with a refresh picture and is written after the
//! parameter sets met so far.

use vstd::prelude::*;
use vstd::slice::slice_subrange;
use crate::codec::CodecProfile;
use crate::{Bitstream, BitstreamView};

verus! {

/// A run of consecutive pictures, ready to be written out.
#[derive(Debug)]
pub struct Segment {
    /// Index of the first picture of the run.
    pub first: usize,
    /// Index of its last picture.
    pub last: usize,
    /// The parameter sets met in the stream up to the last picture.
    pub parameter_sets: Vec<u8>,
    /// The pictures of the run, in order.
    pub units: Vec<Bitstream>,
}

/// What a `Segment` holds, as mathematical values.
pub struct SegmentView {
    pub first: int,
    pub last: int,
    pub parameter_sets: Seq<u8>,
    pub units: Seq<BitstreamView>,
}

/// The views of a vector of access units.
pub open spec fn unit_views(units: Seq<Bitstream>) -> Seq<BitstreamView> {
    units.map_values(|au: Bitstream| au@)
}

/// The views of a vector of segments.
pub open spec fn segment_views(segments: Seq<Segment>) -> Seq<SegmentView> {
    segments.map_values(|segment: Segment| segment@)
}

impl View for Segment {
    type V = SegmentView;

    open spec fn view(&self) -> SegmentView {
        SegmentView {
            first: self.first as int,
            last: self.last as int,
            parameter_sets: self.parameter_sets@,
            units: unit_views(self.units@),
        }
    }
}

impl Segment {
    /// The content of the segment's file: the parameter sets, then the
    /// buffers of the access units in order.
    pub fn bytes(&self) -> (content: Vec<u8>)
        ensures
            content@ == self@.bytes(),
    {
        let mut content: Vec<u8> = Vec::new();
        content.extend_from_slice(self.parameter_sets.as_slice());
        assert(content@ == self.parameter_sets@);
        let count = self.units.len();
        let mut k: usize = 0;
        assert(unit_views(self.units@).take(0) == Seq::<BitstreamView>::empty());
        while k < count
            invariant
                count == self.units@.len(),
                0 <= k <= count,
                content@ == self.parameter_sets@ + concat_data(
                    unit_views(self.units@).take(k as int),
                ),
            decreases count - k,
        {
            let ghost before = content@;
            content.extend_from_slice(self.units[k].frame_data.as_slice());
            proof {
                let views = unit_views(self.units@);
                assert(content@ == before + views[k as int].frame_data);
                assert(views.take(k + 1).drop_last() == views.take(k as int));
                assert(views.take(k + 1).last() == views[k as int]);
            }
            k = k + 1;
        }
        assert(unit_views(self.units@).take(count as int) == unit_views(self.units@));
        content
    }
}

/// The buffers of the access units, one after the other.
pub open spec fn concat_data(units: Seq<BitstreamView>) -> Seq<u8>
    decreases units.len(),
{
    if units.len() == 0 {
        Seq::empty()
    } else {
        concat_data(units.drop_last()) + units.last().frame_data
    }
}

impl SegmentView {
    /// The access-unit section of the segment's file.
    pub open spec fn payload(self) -> Seq<u8> {
        concat_data(self.units)
    }

    /// The whole content of the segment's file: the parameter sets, then
    /// the access units.
    pub open spec fn bytes(self) -> Seq<u8> {
        self.parameter_sets + self.payload()
    }
}

/// The bytes of the parameter-set units among the first `n` units of an
/// access unit, in stream order.
pub open spec fn parameter_bytes(c: CodecProfile, au: BitstreamView, n: int) -> Seq<u8>
    decreases n,
{
    if n <= 0 {
        Seq::empty()
    } else if c.is_parameter_set(au.frame_header[n - 1]) {
        parameter_bytes(c, au, n - 1) + au.unit_bytes(n - 1)
    } else {
        parameter_bytes(c, au, n - 1)
    }
}

/// The bytes of all parameter-set units of an access unit.
pub open spec fn parameter_sets_of(c: CodecProfile, au: BitstreamView) -> Seq<u8> {
    parameter_bytes(c, au, au.frame_location.len() as int)
}

/// The parameter-set cache after the given access units: the parameter
/// sets of each, in the order met.
pub open spec fn cache_of(c: CodecProfile, units: Seq<BitstreamView>) -> Seq<u8>
    decreases units.len(),
{
    if units.len() == 0 {
        Seq::empty()
    } else {
        cache_of(c, units.drop_last()) + parameter_sets_of(c, units.last())
    }
}

/// Whether a segment ends before picture `k`, when the pending run began
/// at `run_start`: `k` is a refresh picture, and the pictures from the
/// one that began the run to `k` are spaced by more than the minimum, so
/// that the run before `k` holds more than `min` pictures. The last
/// picture of a stream is treated as any other.
pub open spec fn cuts_at(pictures: Seq<BitstreamView>, min: int, run_start: int, k: int) -> bool {
    &&& 0 <= run_start < k < pictures.len()
    &&& pictures[k].idr_flag
    &&& k - run_start > min
}

/// The segment that covers the pictures `first..=last`.
pub open spec fn segment_of(
    c: CodecProfile,
    pictures: Seq<BitstreamView>,
    first: int,
    last: int,
) -> SegmentView {
    SegmentView {
        first,
        last,
        parameter_sets: cache_of(c, pictures.take(last + 1)),
        units: pictures.subrange(first, last + 1),
    }
}

/// The segments still to come when picture `k` arrives and the pending run
/// began at `run_start`.
pub open spec fn segments_from(
    c: CodecProfile,
    pictures: Seq<BitstreamView>,
    min: int,
    run_start: int,
    k: int,
) -> Seq<SegmentView>
    decreases pictures.len() - k,
{
    if k >= pictures.len() {
        if 0 <= run_start < pictures.len() {
            seq![segment_of(c, pictures, run_start, pictures.len() - 1)]
        } else {
            Seq::empty()
        }
    } else if cuts_at(pictures, min, run_start, k) {
        seq![segment_of(c, pictures, run_start, k - 1)] + segments_from(c, pictures, min, k, k + 1)
    } else {
        segments_from(c, pictures, min, run_start, k + 1)
    }
}

/// The segments into which the pictures of a stream are grouped: a
/// segment ends before each picture at which `cuts_at` holds, and the
/// last segment holds what is pending when the stream has ended.
pub open spec fn segments(c: CodecProfile, pictures: Seq<BitstreamView>, min: int) -> Seq<
    SegmentView,
> {
    segments_from(c, pictures, min, 0, 0)
}

/// Appends the bytes of the parameter-set units of `au` to `cache`.
pub fn collect_parameter_sets(codec: CodecProfile, au: &Bitstream, cache: &mut Vec<u8>)
    requires
        au@.wf(),
    ensures
        final(cache)@ == old(cache)@ + parameter_sets_of(codec, au@),
{
    let count = au.frame_location.len();
    let mut k: usize = 0;
    while k < count
        invariant
            au@.wf(),
            count == au@.frame_location.len(),
            0 <= k <= count,
            cache@ == old(cache)@ + parameter_bytes(codec, au@, k as int),
        decreases count - k,
    {
        if codec.holds_parameter_set(au.frame_header[k]) {
            let begin = au.frame_location[k];
            let end = if k + 1 < count {
                au.frame_location[k + 1]
            } else {
                au.frame_data.len()
            };
            let ghost before = cache@;
            let unit = slice_subrange(au.frame_data.as_slice(), begin, end);
            cache.extend_from_slice(unit);
            assert(cache@ == before + au@.unit_bytes(k as int));
        }
        k = k + 1;
    }
}

/// The state of the segmenter between two access units: the cache of
/// parameter sets, the pending run and the index at which it began.
pub struct Segmenter {
    codec: CodecProfile,
    min_frames: usize,
    cache: Vec<u8>,
    pending: Vec<Bitstream>,
    run_start: usize,
}

impl Segmenter {
    /// The codec family whose parameter sets are collected.
    pub closed spec fn codec(&self) -> CodecProfile {
        self.codec
    }

    /// The least number of pictures in a segment that a refresh picture may
    /// end.
    pub closed spec fn min_frames(&self) -> int {
        self.min_frames as int
    }

    /// The parameter sets of all access units pushed so far.
    pub closed spec fn cache(&self) -> Seq<u8> {
        self.cache@
    }

    /// The access units pushed since the last segment was cut.
    pub closed spec fn pending(&self) -> Seq<BitstreamView> {
        unit_views(self.pending@)
    }

    /// Index of the first picture of the pending run.
    pub closed spec fn run_start(&self) -> int {
        self.run_start as int
    }

    /// Index that the next access unit will have.
    pub open spec fn next_index(&self) -> int {
        self.run_start() + self.pending().len()
    }

    /// Whether pushing `au` ends the pending run before it: it is a
    /// refresh picture and more than the minimum number of pictures are
    /// pending.
    pub open spec fn cuts_before(&self, au: BitstreamView) -> bool {
        &&& au.idr_flag
        &&& self.pending().len() > self.min_frames()
    }

    /// Whether another access unit can be counted: the index of the next
    /// one is below the greatest `usize`.
    pub fn has_room(&self) -> (room: bool)
        ensures
            room == (self.next_index() < usize::MAX),
    {
        self.pending.len() < usize::MAX - self.run_start
    }

    /// A segmenter that has seen nothing.
    pub fn new(codec: CodecProfile, min_frames: usize) -> (segmenter: Self)
        ensures
            segmenter.codec() == codec,
            segmenter.min_frames() == min_frames,
            segmenter.cache() == Seq::<u8>::empty(),
            segmenter.pending() == Seq::<BitstreamView>::empty(),
            segmenter.run_start() == 0,
    {
        let segmenter = Segmenter {
            codec,
            min_frames,
            cache: Vec::new(),
            pending: Vec::new(),
            run_start: 0,
        };
        assert(segmenter.pending() == Seq::<BitstreamView>::empty());
        segmenter
    }

    /// Takes the next access unit of the stream.
    ///
    /// A refresh picture that finds more than the minimum number of
    /// pictures pending ends the pending run: the run comes back as a
    /// segment, with the parameter sets met before this access unit, and
    /// the access unit begins the new run. Otherwise the access unit joins
    /// the pending run and nothing comes back.
    pub fn push(&mut self, au: Bitstream) -> (flushed: Option<Segment>)
        requires
            au@.wf(),
            old(self).next_index() < usize::MAX,
        ensures
            final(self).codec() == old(self).codec(),
            final(self).min_frames() == old(self).min_frames(),
            final(self).cache() == old(self).cache() + parameter_sets_of(old(self).codec(), au@),
            old(self).cuts_before(au@) ==> {
                &&& flushed.is_some()
                &&& flushed.unwrap()@ == (SegmentView {
                    first: old(self).run_start(),
                    last: old(self).next_index() - 1,
                    parameter_sets: old(self).cache(),
                    units: old(self).pending(),
                })
                &&& final(self).pending() == seq![au@]
                &&& final(self).run_start() == old(self).next_index()
            },
            !old(self).cuts_before(au@) ==> {
                &&& flushed.is_none()
                &&& final(self).pending() == old(self).pending().push(au@)
                &&& final(self).run_start() == old(self).run_start()
            },
    {
        let count = self.pending.len();
        let mut flushed: Option<Segment> = None;
        if au.idr_flag && count > self.min_frames {
            let mut units: Vec<Bitstream> = Vec::new();
            core::mem::swap(&mut units, &mut self.pending);
            let mut parameter_sets: Vec<u8> = Vec::new();
            parameter_sets.extend_from_slice(self.cache.as_slice());
            assert(parameter_sets@ == self.cache@);
            let first = self.run_start;
            let last = first + count - 1;
            self.run_start = first + count;
            flushed = Some(Segment { first, last, parameter_sets, units });
        }
        collect_parameter_sets(self.codec, &au, &mut self.cache);
        let ghost pushed = au@;
        let ghost held = unit_views(self.pending@);
        self.pending.push(au);
        assert(unit_views(self.pending@) == held.push(pushed));
        assert(unit_views(Seq::<Bitstream>::empty()) == Seq::<BitstreamView>::empty());
        flushed
    }

    /// Ends the stream: the pending run comes back as the last segment,
    /// whatever its length, with all parameter sets met. Nothing comes
    /// back where nothing is pending.
    pub fn finish(&mut self) -> (flushed: Option<Segment>)
        requires
            old(self).next_index() <= usize::MAX,
        ensures
            final(self).codec() == old(self).codec(),
            final(self).min_frames() == old(self).min_frames(),
            final(self).cache() == old(self).cache(),
            final(self).pending() == Seq::<BitstreamView>::empty(),
            final(self).run_start() == old(self).next_index(),
            old(self).pending().len() == 0 ==> flushed.is_none(),
            old(self).pending().len() > 0 ==> {
                &&& flushed.is_some()
                &&& flushed.unwrap()@ == (SegmentView {
                    first: old(self).run_start(),
                    last: old(self).next_index() - 1,
                    parameter_sets: old(self).cache(),
                    units: old(self).pending(),
                })
            },
    {
        let count = self.pending.len();
        assert(unit_views(Seq::<Bitstream>::empty()) == Seq::<BitstreamView>::empty());
        if count == 0 {
            assert(self.pending@ == Seq::<Bitstream>::empty());
            return None;
        }
        let mut units: Vec<Bitstream> = Vec::new();
        core::mem::swap(&mut units, &mut self.pending);
        let mut parameter_sets: Vec<u8> = Vec::new();
        parameter_sets.extend_from_slice(self.cache.as_slice());
        assert(parameter_sets@ == self.cache@);
        let first = self.run_start;
        let last = first + count - 1;
        self.run_start = first + count;
        Some(Segment { first, last, parameter_sets, units })
    }
}

} // verus!
