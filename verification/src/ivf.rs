//! Splitting of an IVF file, a container of frames with declared lengths,
//! into files that each begin with a key frame.
//!
//! An IVF file begins with a header of 32 bytes, which holds the number of
//! frames in bytes 24 to 27. Each frame has a header of 12 bytes, which
//! begins with the length of the frame's data.

use vstd::prelude::*;
use vstd::slice::slice_subrange;
use crate::cursor::ByteCursor;
use crate::segment::unit_views;
use crate::text::{
    lowercase, make_range_name, outcome, parse_usize, parsed_usize, range_name, str_eq,
    to_lowercase, words,
};
use crate::{Bitstream, BitstreamView};

verus! {

/// The number that four bytes hold, least significant byte first.
pub open spec fn le32(bytes: Seq<u8>) -> int {
    bytes[0] + 256 * bytes[1] + 65536 * bytes[2] + 16777216 * bytes[3]
}

/// The four bytes that hold a number, least significant byte first.
pub open spec fn le32_bytes(value: int) -> Seq<u8> {
    seq![
        (value % 256) as u8,
        (value / 256 % 256) as u8,
        (value / 65536 % 256) as u8,
        (value / 16777216 % 256) as u8,
    ]
}

/// Reads a number from the first four bytes, least significant byte first.
pub fn read_le32(bytes: &[u8]) -> (value: u32)
    requires
        bytes@.len() >= 4,
    ensures
        value == le32(bytes@),
{
    let b0 = bytes[0];
    let b1 = bytes[1];
    let b2 = bytes[2];
    let b3 = bytes[3];
    assert(((b3 as u32) << 24) | ((b2 as u32) << 16) | ((b1 as u32) << 8) | (b0 as u32) == b0 + 256
        * b1 + 65536 * b2 + 16777216 * b3) by (bit_vector);
    ((b3 as u32) << 24) | ((b2 as u32) << 16) | ((b1 as u32) << 8) | (b0 as u32)
}

/// Appends the four bytes of a number, least significant byte first.
pub fn push_le32(out: &mut Vec<u8>, value: u32)
    ensures
        final(out)@ == old(out)@ + le32_bytes(value as int),
{
    assert((value & 0xff) == value % 256) by (bit_vector);
    assert(((value >> 8) & 0xff) == value / 256 % 256) by (bit_vector);
    assert(((value >> 16) & 0xff) == value / 65536 % 256) by (bit_vector);
    assert(((value >> 24) & 0xff) == value / 16777216 % 256) by (bit_vector);
    out.push((value & 0xff) as u8);
    out.push(((value >> 8) & 0xff) as u8);
    out.push(((value >> 16) & 0xff) as u8);
    out.push(((value >> 24) & 0xff) as u8);
    assert(out@ == old(out)@ + le32_bytes(value as int));
}

/// Whether a frame is a key frame, from the first byte of its data. VP8
/// clears the lowest bit in a key frame; VP9 clears bit 2, and bit 3 where
/// the frame is not a repeat of an earlier one.
pub open spec fn is_key_frame(vp9: bool, first: u8) -> bool {
    if vp9 {
        first & 0x4 == 0 && first & 0x8 == 0
    } else {
        first & 0x1 == 0
    }
}

/// The frame that begins at `p`, or the reason why none can be read there:
/// its header of 12 bytes and its data must lie inside the file, and the
/// data must not be empty.
pub open spec fn frame_at(vp9: bool, s: Seq<u8>, p: int) -> Result<BitstreamView, Seq<char>> {
    if p + 12 > s.len() {
        Err("bytes read 12 is not expected ..."@)
    } else {
        let size = le32(s.subrange(p, p + 12));
        if p + 12 + size > s.len() {
            Err("bytes read buf size is not expected ..."@)
        } else if size == 0 {
            Err("frame without data ..."@)
        } else {
            Ok(
                BitstreamView {
                    frame_header: s.subrange(p, p + 12),
                    frame_location: Seq::empty(),
                    frame_data: s.subrange(p + 12, p + 12 + size),
                    idr_flag: is_key_frame(vp9, s[p + 12]),
                },
            )
        }
    }
}

/// The frames read one after the other from `p`, `limit` at most, up to
/// the first that cannot be read.
pub open spec fn frames_from(vp9: bool, s: Seq<u8>, p: int, limit: int) -> Seq<BitstreamView>
    decreases limit,
{
    if limit <= 0 {
        Seq::empty()
    } else {
        match frame_at(vp9, s, p) {
            Err(_) => Seq::empty(),
            Ok(frame) => seq![frame] + frames_from(
                vp9,
                s,
                p + 12 + frame.frame_data.len(),
                limit - 1,
            ),
        }
    }
}

/// The number of frames that the file header declares; 10000 where it
/// declares none.
pub open spec fn declared_frames(s: Seq<u8>) -> int {
    if le32(s.subrange(24, 28)) == 0 {
        10000
    } else {
        le32(s.subrange(24, 28))
    }
}

/// A run of consecutive frames with the file header to write before them.
#[derive(Debug)]
pub struct IvfSegment {
    /// Index of the first frame of the run.
    pub first: usize,
    /// Index of the last frame that the file name speaks of.
    pub last: usize,
    /// The file header, with the number of frames `last - first + 1`.
    pub header: Vec<u8>,
    /// The frames of the run, in order.
    pub frames: Vec<Bitstream>,
}

/// What an `IvfSegment` holds, as mathematical values.
pub struct IvfSegmentView {
    pub first: int,
    pub last: int,
    pub header: Seq<u8>,
    pub frames: Seq<BitstreamView>,
}

impl View for IvfSegment {
    type V = IvfSegmentView;

    open spec fn view(&self) -> IvfSegmentView {
        IvfSegmentView {
            first: self.first as int,
            last: self.last as int,
            header: self.header@,
            frames: unit_views(self.frames@),
        }
    }
}

/// The views of a vector of segments.
pub open spec fn ivf_segment_views(segments: Seq<IvfSegment>) -> Seq<IvfSegmentView> {
    segments.map_values(|segment: IvfSegment| segment@)
}

/// The headers and data of the frames, one after the other.
pub open spec fn concat_frames(frames: Seq<BitstreamView>) -> Seq<u8>
    decreases frames.len(),
{
    if frames.len() == 0 {
        Seq::empty()
    } else {
        concat_frames(frames.drop_last()) + frames.last().frame_header + frames.last().frame_data
    }
}

impl IvfSegmentView {
    /// The whole content of the segment's file.
    pub open spec fn bytes(self) -> Seq<u8> {
        self.header + concat_frames(self.frames)
    }
}

/// The file header with the number of frames replaced by `count`.
pub open spec fn header_for(header: Seq<u8>, count: int) -> Seq<u8> {
    header.subrange(0, 24) + le32_bytes(count) + header.subrange(28, 32)
}

/// The segment named after the frames `first..=last` that holds the
/// frames `first..end`.
pub open spec fn ivf_segment_of(
    header: Seq<u8>,
    frames: Seq<BitstreamView>,
    first: int,
    last: int,
    end: int,
) -> IvfSegmentView {
    IvfSegmentView {
        first,
        last,
        header: header_for(header, last - first + 1),
        frames: frames.subrange(first, end),
    }
}

/// Whether a segment ends before frame `k`, when the pending run began at
/// `run_start`: `k` is a key frame and the run before it is not empty and
/// has reached the minimum length.
pub open spec fn ivf_cuts_at(frames: Seq<BitstreamView>, min: int, run_start: int, k: int) -> bool {
    &&& 0 <= run_start < k < frames.len()
    &&& frames[k].idr_flag
    &&& k - run_start >= min
}

/// The segments still to come when frame `k` arrives and the pending run
/// began at `run_start`. The last segment is named as if it reached the
/// last frame that the file declares, whether or not all could be read.
pub open spec fn ivf_segments_from(
    header: Seq<u8>,
    frames: Seq<BitstreamView>,
    total: int,
    min: int,
    run_start: int,
    k: int,
) -> Seq<IvfSegmentView>
    decreases frames.len() - k,
{
    if k >= frames.len() {
        seq![ivf_segment_of(header, frames, run_start, total - 1, frames.len() as int)]
    } else if ivf_cuts_at(frames, min, run_start, k) {
        seq![ivf_segment_of(header, frames, run_start, k - 1, k)] + ivf_segments_from(
            header,
            frames,
            total,
            min,
            k,
            k + 1,
        )
    } else {
        ivf_segments_from(header, frames, total, min, run_start, k + 1)
    }
}

/// The segments of an IVF file, or the reason why it cannot be split: the
/// file must hold a header of 32 bytes that begins with `DKIF`.
pub open spec fn ivf_segments(vp9: bool, s: Seq<u8>, min: int) -> Result<
    Seq<IvfSegmentView>,
    Seq<char>,
> {
    if s.len() < 32 {
        Err("bytes read is not expected ..."@)
    } else if !(s[0] == 0x44 && s[1] == 0x4b && s[2] == 0x49 && s[3] == 0x46) {
        Err("Not supported IVF format ..."@)
    } else {
        Ok(
            ivf_segments_from(
                s.subrange(0, 32),
                frames_from(vp9, s, 32, declared_frames(s)),
                declared_frames(s),
                min,
                0,
                0,
            ),
        )
    }
}

/// The settings of one split.
pub struct Ivf {
    /// Path of the IVF file to split.
    pub input: String,
    /// Prefix of the names of the files to write.
    pub output: String,
    /// The least number of frames in a segment that a key frame may end.
    pub frame_num: usize,
    /// Whether the frames are VP9; VP8 otherwise.
    pub vp9: bool,
}

/// The settings of a split, as mathematical values.
pub struct IvfView {
    pub input: Seq<char>,
    pub output: Seq<char>,
    pub frame_num: usize,
    pub vp9: bool,
}

impl View for Ivf {
    type V = IvfView;

    open spec fn view(&self) -> IvfView {
        IvfView {
            input: self.input@,
            output: self.output@,
            frame_num: self.frame_num,
            vp9: self.vp9,
        }
    }
}

/// Which codec a name in lower case stands for: `Some(true)` for VP9,
/// `Some(false)` for VP8, `None` for any other name.
pub open spec fn vp9_named(name: Seq<char>) -> Option<bool> {
    if name == "vp9"@ {
        Some(true)
    } else if name == "vp8"@ {
        Some(false)
    } else {
        None
    }
}

/// Tells the codec from its name in lower case.
pub fn codec_from_name(name: &str) -> (vp9: Option<bool>)
    ensures
        vp9 == vp9_named(name@),
{
    if str_eq(name, "vp9") {
        Some(true)
    } else if str_eq(name, "vp8") {
        Some(false)
    } else {
        None
    }
}

/// The settings that the command-line words ask for: the input path is
/// the third word, the output prefix the fourth, the minimum number of
/// frames the fifth, and the codec name, in any case of letters, the
/// sixth. Fewer than six words, a fifth that is no number and a name that
/// is neither `vp8` nor `vp9` are refused, in this order.
pub open spec fn ivf_settings(words: Seq<Seq<char>>) -> Result<IvfView, Seq<char>> {
    if words.len() < 6 {
        Err("too less arguments for rsplit ivf mode"@)
    } else {
        match parsed_usize(words[4]) {
            None => Err("can't parse frame_num as usize"@),
            Some(frame_num) => match vp9_named(lowercase(words[5])) {
                None => Err("only support vp8 and vp9"@),
                Some(vp9) => Ok(IvfView { input: words[2], output: words[3], frame_num, vp9 }),
            },
        }
    }
}

/// Copies a file header and writes `count` as its number of frames.
pub fn header_with_count(header: &[u8], count: u32) -> (patched: Vec<u8>)
    requires
        header@.len() >= 32,
    ensures
        patched@ == header_for(header@, count as int),
{
    let mut patched: Vec<u8> = Vec::new();
    patched.extend_from_slice(slice_subrange(header, 0, 24));
    assert(patched@ == header@.subrange(0, 24));
    push_le32(&mut patched, count);
    let ghost before = patched@;
    patched.extend_from_slice(slice_subrange(header, 28, 32));
    assert(patched@ == before + header@.subrange(28, 32));
    patched
}

impl IvfSegment {
    /// The content of the segment's file: the file header, then the header
    /// and the data of each frame.
    pub fn bytes(&self) -> (content: Vec<u8>)
        ensures
            content@ == self@.bytes(),
    {
        let mut content: Vec<u8> = Vec::new();
        content.extend_from_slice(self.header.as_slice());
        assert(content@ == self.header@);
        let count = self.frames.len();
        let mut k: usize = 0;
        assert(unit_views(self.frames@).take(0) == Seq::<BitstreamView>::empty());
        while k < count
            invariant
                count == self.frames@.len(),
                0 <= k <= count,
                content@ == self.header@ + concat_frames(unit_views(self.frames@).take(k as int)),
            decreases count - k,
        {
            let ghost before = content@;
            content.extend_from_slice(self.frames[k].frame_header.as_slice());
            content.extend_from_slice(self.frames[k].frame_data.as_slice());
            proof {
                let views = unit_views(self.frames@);
                assert(content@ == before + views[k as int].frame_header
                    + views[k as int].frame_data);
                assert(views.take(k + 1).drop_last() == views.take(k as int));
                assert(views.take(k + 1).last() == views[k as int]);
            }
            k = k + 1;
        }
        assert(unit_views(self.frames@).take(count as int) == unit_views(self.frames@));
        content
    }
}

impl Ivf {
    /// How the splitter is called.
    pub fn helper() -> (usage: &'static str)
        ensures
            usage@ == "Usage: rsplit ivf input.ivf output frame_num vp8|vp9"@,
    {
        "Usage: rsplit ivf input.ivf output frame_num vp8|vp9"
    }

    /// Reads the settings from the command-line words.
    pub fn new(args: &[String]) -> (made: Result<Ivf, &'static str>)
        ensures
            outcome(made) == ivf_settings(words(args@)),
    {
        if args.len() < 6 {
            return Err("too less arguments for rsplit ivf mode");
        }
        let input = args[2].clone();
        let output = args[3].clone();
        let frame_num = match parse_usize(args[4].as_str()) {
            Some(frame_num) => frame_num,
            None => {
                return Err("can't parse frame_num as usize");
            },
        };
        let name = to_lowercase(args[5].as_str());
        let vp9 = match codec_from_name(name.as_str()) {
            Some(vp9) => vp9,
            None => {
                return Err("only support vp8 and vp9");
            },
        };
        Ok(Ivf { input, output, frame_num, vp9 })
    }

    /// Reads the frame at the cursor: its header of 12 bytes, then as many
    /// bytes of data as the header declares, and tells from the first byte
    /// of the data whether it is a key frame. Where no frame can be read
    /// the cursor stays.
    pub fn find_au_nal_units(&self, cursor: &mut ByteCursor) -> (frame: Result<
        Bitstream,
        &'static str,
    >)
        ensures
            final(cursor).stream() == old(cursor).stream(),
            outcome(frame) == frame_at(self.vp9, old(cursor).stream(), old(cursor).position()),
            frame matches Ok(read) ==> final(cursor).position() == old(cursor).position() + 12
                + read@.frame_data.len(),
            frame.is_err() ==> final(cursor).position() == old(cursor).position(),
    {
        let ghost s = cursor.stream();
        let ghost p = cursor.position();
        let start = cursor.pos();
        let header = match cursor.take(12) {
            Some(header) => header,
            None => {
                return Err("bytes read 12 is not expected ...");
            },
        };
        assert(le32(header@) == le32(s.subrange(p, p + 12)));
        let size = read_le32(header) as usize;
        let data = match cursor.take(size) {
            Some(data) => data,
            None => {
                cursor.seek_back(12);
                return Err("bytes read buf size is not expected ...");
            },
        };
        if size == 0 {
            cursor.seek_back(12);
            return Err("frame without data ...");
        }
        let first = data[0];
        let idr_flag = if self.vp9 {
            first & 0x4 == 0 && first & 0x8 == 0
        } else {
            first & 0x1 == 0
        };
        let mut frame_header: Vec<u8> = Vec::new();
        frame_header.extend_from_slice(header);
        let mut frame_data: Vec<u8> = Vec::new();
        frame_data.extend_from_slice(data);
        let frame = Bitstream { frame_header, frame_location: Vec::new(), frame_data, idr_flag };
        proof {
            assert(frame.frame_header@ == s.subrange(p, p + 12));
            assert(frame.frame_data@ == s.subrange(p + 12, p + 12 + size));
            assert(frame.frame_location@ == Seq::<usize>::empty());
        }
        Ok(frame)
    }

    /// Splits an IVF file into segments: reads as many frames as the file
    /// header declares, or as can be read, and cuts before each key frame
    /// that finds at least `frame_num` frames pending. Each segment gets
    /// the file header with its own number of frames. The last segment
    /// holds the frames that are left and is named, and counted, as if it
    /// reached the last frame that the header declares.
    pub fn run(&self, stream: &[u8]) -> (out: Result<Vec<IvfSegment>, &'static str>)
        ensures
            match (out, ivf_segments(self.vp9, stream@, self.frame_num as int)) {
                (Ok(list), Ok(wanted)) => ivf_segment_views(list@) == wanted,
                (Err(message), Err(text)) => message@ == text,
                _ => false,
            },
    {
        let ghost s = stream@;
        let ghost min = self.frame_num as int;
        let mut cursor = ByteCursor::new(stream);
        let header = match cursor.take(32) {
            Some(header) => header,
            None => {
                return Err("bytes read is not expected ...");
            },
        };
        if !(header[0] == 0x44 && header[1] == 0x4b && header[2] == 0x49 && header[3] == 0x46) {
            return Err("Not supported IVF format ...");
        }
        let declared = read_le32(slice_subrange(header, 24, 28));
        assert(header@.subrange(24, 28) == s.subrange(24, 28));
        let total: usize = if declared == 0 {
            10000
        } else {
            declared as usize
        };
        let ghost all = frames_from(self.vp9, s, 32, total as int);
        let ghost mut seen: Seq<BitstreamView> = Seq::empty();
        let mut out: Vec<IvfSegment> = Vec::new();
        let mut pending: Vec<Bitstream> = Vec::new();
        let mut run_start: usize = 0;
        let mut k: usize = 0;
        let mut reading = true;
        proof {
            assert(ivf_segment_views(out@) == Seq::<IvfSegmentView>::empty());
            assert(all == seen + frames_from(self.vp9, s, 32, total as int));
            assert(unit_views(pending@) == seen.subrange(0, 0));
        }
        while k < total && reading
            invariant
                s == stream@,
                min == self.frame_num as int,
                header@ == s.subrange(0, 32),
                1 <= total <= u32::MAX,
                total == declared_frames(s),
                all == frames_from(self.vp9, s, 32, total as int),
                cursor.stream() == s,
                0 <= k <= total,
                0 <= run_start <= k,
                seen.len() == k,
                reading ==> all == seen + frames_from(
                    self.vp9,
                    s,
                    cursor.position(),
                    total - k,
                ),
                !reading ==> all == seen,
                unit_views(pending@) == seen.subrange(run_start as int, k as int),
                ivf_segments_from(header@, all, total as int, min, 0, 0) == ivf_segment_views(out@)
                    + ivf_segments_from(header@, all, total as int, min, run_start as int, k as int),
            decreases total - k, (if reading { 1int } else { 0int }),
        {
            let ghost p = cursor.position();
            let ghost done = ivf_segment_views(out@);
            match self.find_au_nal_units(&mut cursor) {
                Ok(frame) => {
                    let ghost unit = frame@;
                    proof {
                        let rest = frames_from(self.vp9, s, cursor.position(), total - k - 1);
                        assert(frames_from(self.vp9, s, p, total - k) == seq![unit] + rest);
                        assert(all == seen.push(unit) + rest);
                        assert(all[k as int] == unit);
                        assert(all.subrange(run_start as int, k as int) == seen.subrange(
                            run_start as int,
                            k as int,
                        ));
                        assert(all.subrange(run_start as int, k + 1) == seen.subrange(
                            run_start as int,
                            k as int,
                        ).push(unit));
                        assert(all.subrange(k as int, k + 1) == seq![unit]);
                    }
                    if frame.idr_flag && run_start < k && k - run_start >= self.frame_num {
                        let mut frames: Vec<Bitstream> = Vec::new();
                        core::mem::swap(&mut frames, &mut pending);
                        let segment = IvfSegment {
                            first: run_start,
                            last: k - 1,
                            header: header_with_count(header, (k - run_start) as u32),
                            frames,
                        };
                        proof {
                            assert(ivf_cuts_at(all, min, run_start as int, k as int));
                            assert(segment@ == ivf_segment_of(
                                header@,
                                all,
                                run_start as int,
                                k - 1,
                                k as int,
                            ));
                        }
                        out.push(segment);
                        assert(ivf_segment_views(out@) == done.push(segment@));
                        run_start = k;
                    } else {
                        assert(!ivf_cuts_at(all, min, run_start as int, k as int));
                    }
                    let ghost held = unit_views(pending@);
                    pending.push(frame);
                    assert(unit_views(pending@) == held.push(unit));
                    proof {
                        seen = seen.push(unit);
                    }
                    k = k + 1;
                },
                Err(_) => {
                    proof {
                        assert(frames_from(self.vp9, s, p, total - k) == Seq::<
                            BitstreamView,
                        >::empty());
                        assert(all == seen);
                    }
                    reading = false;
                },
            }
        }
        proof {
            if reading {
                assert(frames_from(self.vp9, s, cursor.position(), 0) == Seq::<
                    BitstreamView,
                >::empty());
            }
            assert(all == seen);
            assert(all.subrange(run_start as int, k as int) == seen.subrange(
                run_start as int,
                k as int,
            ));
        }
        let ghost done = ivf_segment_views(out@);
        let segment = IvfSegment {
            first: run_start,
            last: total - 1,
            header: header_with_count(header, (total - run_start) as u32),
            frames: pending,
        };
        assert(segment@ == ivf_segment_of(header@, all, run_start as int, total - 1, k as int));
        out.push(segment);
        assert(ivf_segment_views(out@) == done.push(segment@));
        Ok(out)
    }

    /// The name of the file for a segment: the output prefix, the indices
    /// of its first and last frame, and the extension `ivf`.
    pub fn segment_name(&self, segment: &IvfSegment) -> (name: String)
        ensures
            name@ == range_name(
                self.output@,
                segment.first as nat,
                segment.last as nat,
                seq!['i', 'v', 'f'],
            ),
    {
        proof {
            reveal_strlit("ivf");
            assert("ivf"@ =~= seq!['i', 'v', 'f']);
        }
        make_range_name(self.output.as_str(), segment.first, segment.last, "ivf")
    }
}

} // verus!
