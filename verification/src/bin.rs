//! Splitting of a raw H.264 or H.265 elementary stream into segments that
//! each begin with a refresh picture.

use vstd::prelude::*;
use crate::codec::CodecProfile;
use crate::cursor::ByteCursor;
use crate::scan::{
    lemma_picture_advances, lemma_pictures_nonempty, picture_end,
    pictures,
};
use crate::scanner::next_access_unit;
use crate::segment::{
    cache_of, cuts_at, segment_of, segment_views, segments, segments_from, Segment,
    SegmentView, Segmenter,
};
use crate::text::{
    lowercase, make_range_name, outcome, parse_usize, parsed_usize, range_name, str_eq,
    to_lowercase, words,
};
use crate::BitstreamView;

verus! {

/// The settings of one split.
pub struct Bin {
    /// Path of the elementary stream to split.
    pub input: String,
    /// Prefix of the names of the files to write.
    pub output: String,
    /// The least number of pictures in a segment that a refresh picture may
    /// end.
    pub frame_num: usize,
    /// Whether the stream is H.265; H.264 otherwise.
    pub h265: bool,
}

/// Which codec a name in lower case stands for: `Some(true)` for H.265,
/// `Some(false)` for H.264, `None` for any other name.
pub open spec fn h265_named(name: Seq<char>) -> Option<bool> {
    if name == "h265"@ {
        Some(true)
    } else if name == "h264"@ {
        Some(false)
    } else {
        None
    }
}

/// Tells the codec from its name in lower case.
pub fn codec_from_name(name: &str) -> (h265: Option<bool>)
    ensures
        h265 == h265_named(name@),
{
    if str_eq(name, "h265") {
        Some(true)
    } else if str_eq(name, "h264") {
        Some(false)
    } else {
        None
    }
}

/// The settings of a split, as mathematical values.
pub struct BinView {
    pub input: Seq<char>,
    pub output: Seq<char>,
    pub frame_num: usize,
    pub h265: bool,
}

impl View for Bin {
    type V = BinView;

    open spec fn view(&self) -> BinView {
        BinView {
            input: self.input@,
            output: self.output@,
            frame_num: self.frame_num,
            h265: self.h265,
        }
    }
}

/// The settings that the command-line words ask for: the input path is
/// the third word, the output prefix the fourth, the minimum number of
/// pictures the fifth, and the codec name, in any case of letters, the
/// sixth. Fewer than six words, a fifth that is no number and a name that
/// is neither `h264` nor `h265` are refused, in this order.
pub open spec fn bin_settings(words: Seq<Seq<char>>) -> Result<BinView, Seq<char>> {
    if words.len() < 6 {
        Err("too less arguments for rsplit bin mode"@)
    } else {
        match parsed_usize(words[4]) {
            None => Err("can't parse frame_num as usize"@),
            Some(frame_num) => match h265_named(lowercase(words[5])) {
                None => Err("only support h264 and h265"@),
                Some(h265) => Ok(BinView { input: words[2], output: words[3], frame_num, h265 }),
            },
        }
    }
}

impl Bin {
    /// How the splitter is called.
    pub fn helper() -> (usage: &'static str)
        ensures
            usage@ == "Usage: rsplit bin input.bin output frame_num h264|h265"@,
    {
        "Usage: rsplit bin input.bin output frame_num h264|h265"
    }

    /// Reads the settings from the command-line words.
    pub fn new(args: &[String]) -> (made: Result<Bin, &'static str>)
        ensures
            outcome(made) == bin_settings(words(args@)),
    {
        if args.len() < 6 {
            return Err("too less arguments for rsplit bin mode");
        }
        let input = args[2].clone();
        let output = args[3].clone();
        let frame_num = match parse_usize(args[4].as_str()) {
            Some(frame_num) => frame_num,
            None => {
                return Err("can't parse frame_num as usize");
            },
        };
        let name = to_lowercase(args[5].as_str());
        let h265 = match codec_from_name(name.as_str()) {
            Some(h265) => h265,
            None => {
                return Err("only support h264 and h265");
            },
        };
        Ok(Bin { input, output, frame_num, h265 })
    }

    /// The codec family of the stream.
    pub open spec fn codec(&self) -> CodecProfile {
        if self.h265 {
            CodecProfile::H265
        } else {
            CodecProfile::H264
        }
    }

    /// The codec family of the stream.
    pub fn profile(&self) -> (codec: CodecProfile)
        ensures
            codec == self.codec(),
    {
        if self.h265 {
            CodecProfile::H265
        } else {
            CodecProfile::H264
        }
    }

    /// The name of the file for a segment: the output prefix, the indices
    /// of its first and last picture, and the extension `bin`.
    pub fn segment_name(&self, segment: &Segment) -> (name: String)
        ensures
            name@ == range_name(
                self.output@,
                segment.first as nat,
                segment.last as nat,
                seq!['b', 'i', 'n'],
            ),
    {
        proof {
            reveal_strlit("bin");
            assert("bin"@ =~= seq!['b', 'i', 'n']);
        }
        make_range_name(self.output.as_str(), segment.first, segment.last, "bin")
    }

    /// Splits `stream` into segments: scans it picture by picture and cuts
    /// before each refresh picture that finds more than `frame_num`
    /// pictures pending; what is pending at the end of the stream makes
    /// the last segment.
    pub fn run(&self, stream: &[u8]) -> (out: Vec<Segment>)
        ensures
            segment_views(out@) == segments(
                self.codec(),
                pictures(self.codec(), stream@, 0),
                self.frame_num as int,
            ),
    {
        let codec = self.profile();
        let mut cursor = ByteCursor::new(stream);
        let mut segmenter = Segmenter::new(codec, self.frame_num);
        let mut out: Vec<Segment> = Vec::new();
        let ghost s = stream@;
        assert(s.len() <= usize::MAX) by {
            assert(stream.len() <= usize::MAX);
        }
        let ghost min = self.frame_num as int;
        let ghost all = pictures(codec, s, 0);
        let ghost mut seen: Seq<BitstreamView> = Seq::empty();
        proof {
            assert(segment_views(out@) == Seq::<SegmentView>::empty());
            assert(all == seen + pictures(codec, s, 0));
            assert(seen.subrange(0, 0) == Seq::<BitstreamView>::empty());
        }
        loop
            invariant
                codec == self.codec(),
                s == stream@,
                min == self.frame_num as int,
                all == pictures(codec, s, 0),
                cursor.stream() == s,
                0 <= cursor.position() <= s.len(),
                segmenter.codec() == codec,
                segmenter.min_frames() == min,
                all == seen + pictures(codec, s, cursor.position()),
                seen.len() == segmenter.next_index(),
                seen.len() <= cursor.position(),
                seen.len() == 0 || seen.len() < s.len(),
                s.len() <= usize::MAX,
                0 <= segmenter.run_start() <= seen.len(),
                segmenter.pending() == seen.subrange(segmenter.run_start(), seen.len() as int),
                segmenter.cache() == cache_of(codec, seen),
                segments(codec, all, min) == segment_views(out@) + segments_from(
                    codec,
                    all,
                    min,
                    segmenter.run_start(),
                    seen.len() as int,
                ),
            decreases s.len() - cursor.position(),
        {
            let ghost lo = cursor.position();
            let ghost k = seen.len() as int;
            let ghost run_start = segmenter.run_start();
            let ghost done = segment_views(out@);
            let (au, end_of_stream) = next_access_unit(&mut cursor, codec);
            let ghost unit = au@;
            proof {
                lemma_pictures_nonempty(codec, s, lo);
                if !end_of_stream {
                    lemma_picture_advances(codec, s, lo);
                    lemma_pictures_nonempty(codec, s, picture_end(codec, s, lo));
                }
                assert(pictures(codec, s, lo)[0] == unit);
                assert(all[k] == unit);
                assert(all.take(k) == seen);
                assert(seen.push(unit).drop_last() == seen);
                assert(end_of_stream <==> k == all.len() - 1);
                assert(cuts_at(all, min, run_start, k) == segmenter.cuts_before(unit));
                assert(all.subrange(run_start, k) == seen.subrange(run_start, k));
                assert(all.subrange(run_start, k + 1) == seen.subrange(run_start, k).push(unit));
                assert(all.subrange(k, k + 1) == seq![unit]);
            }
            match segmenter.push(au) {
                Some(segment) => {
                    assert(segment@ == segment_of(codec, all, run_start, k - 1));
                    out.push(segment);
                    assert(segment_views(out@) == done.push(segment@));
                },
                None => {},
            }
            proof {
                seen = seen.push(unit);
                if !end_of_stream {
                    assert(pictures(codec, s, lo) == seq![unit] + pictures(
                        codec,
                        s,
                        cursor.position(),
                    ));
                }
            }
            if end_of_stream {
                let ghost first = segmenter.run_start();
                let ghost cut = segment_views(out@);
                proof {
                    assert(all == seen);
                    assert(all.take(k + 1) == all);
                    assert(segments_from(codec, all, min, first, k + 1) == seq![
                        segment_of(codec, all, first, k),
                    ]);
                }
                match segmenter.finish() {
                    Some(segment) => {
                        assert(segment@ == segment_of(codec, all, first, k));
                        out.push(segment);
                        assert(segment_views(out@) == cut.push(segment@));
                    },
                    None => {},
                }
                return out;
            }
        }
    }
}

} // verus!
