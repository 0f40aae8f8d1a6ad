//! Writing of demuxed VP8 or VP9 frames as an IVF file: a file header of
//! 32 bytes, then each frame behind a header of 12 bytes that begins with
//! the length of the frame.

use vstd::prelude::*;
use crate::ivf::{codec_from_name, le32_bytes, push_le32, vp9_named};
use crate::yuv::frame_views;
use crate::text::{lowercase, outcome, parse_usize, parsed_usize, to_lowercase, words};

verus! {

/// The file header: the signature `DKIF`, version 0, the header length
/// 32, the codec tag `VP80` or `VP90`, width and height 0, 1000 time units
/// per second, the low 32 bits of the number of frames, and four unused
/// bytes.
pub open spec fn sequence_header(vp9: bool, frame_num: int) -> Seq<u8> {
    seq![
        0x44u8,
        0x4b,
        0x49,
        0x46,
        0,
        0,
        32,
        0,
        0x56,
        0x50,
        if vp9 {
            0x39u8
        } else {
            0x38u8
        },
        0x30,
        0,
        0,
        0,
        0,
        0xe8,
        0x03,
        0,
        0,
        1,
        0,
        0,
        0,
    ] + le32_bytes(frame_num) + seq![0u8, 0, 0, 0]
}

/// The header of a frame: its length, then eight zero bytes.
pub open spec fn frame_header(len: int) -> Seq<u8> {
    le32_bytes(len) + seq![0u8, 0, 0, 0, 0, 0, 0, 0]
}

/// The frames as they stand in the file, each behind its header: `limit`
/// frames at most, up to the first empty one.
pub open spec fn written_frames(frames: Seq<Seq<u8>>, limit: int) -> Seq<u8>
    decreases frames.len(),
{
    if limit <= 0 || frames.len() == 0 || frames[0].len() == 0 {
        Seq::empty()
    } else {
        frame_header(frames[0].len() as int) + frames[0] + written_frames(
            frames.drop_first(),
            limit - 1,
        )
    }
}

/// The settings of one conversion.
pub struct Webm {
    /// Path of the file to demux.
    pub input: String,
    /// Path of the IVF file to write.
    pub output: String,
    /// The greatest number of frames to write.
    pub frame_num: usize,
    /// Whether the frames are VP9; VP8 otherwise.
    pub vp9: bool,
}

/// The settings of a conversion, as mathematical values.
pub struct WebmView {
    pub input: Seq<char>,
    pub output: Seq<char>,
    pub frame_num: usize,
    pub vp9: bool,
}

impl View for Webm {
    type V = WebmView;

    open spec fn view(&self) -> WebmView {
        WebmView {
            input: self.input@,
            output: self.output@,
            frame_num: self.frame_num,
            vp9: self.vp9,
        }
    }
}

/// The settings that the command-line words ask for: the input path is
/// the third word, the output path the fourth, the number of frames the
/// fifth, and the codec name, in any case of letters, the sixth. Fewer
/// than six words, a fifth that is no number and a name that is neither
/// `vp8` nor `vp9` are refused, in this order.
pub open spec fn webm_settings(words: Seq<Seq<char>>) -> Result<WebmView, Seq<char>> {
    if words.len() < 6 {
        Err("too less arguments for rsplit webm mode"@)
    } else {
        match parsed_usize(words[4]) {
            None => Err("can't parse frame_num as usize"@),
            Some(frame_num) => match vp9_named(lowercase(words[5])) {
                None => Err("only support vp8 and vp9"@),
                Some(vp9) => Ok(WebmView { input: words[2], output: words[3], frame_num, vp9 }),
            },
        }
    }
}

impl Webm {
    /// How the conversion is called.
    pub fn helper() -> (usage: &'static str)
        ensures
            usage@ == "Usage: rsplit webm input.webm output.ivf frame_num vp8|vp9"@,
    {
        "Usage: rsplit webm input.webm output.ivf frame_num vp8|vp9"
    }

    /// Reads the settings from the command-line words.
    pub fn new(args: &[String]) -> (made: Result<Webm, &'static str>)
        ensures
            outcome(made) == webm_settings(words(args@)),
    {
        if args.len() < 6 {
            return Err("too less arguments for rsplit webm mode");
        }
        let input = args[2].clone();
        let output = args[3].clone();
        let frame_num = match parse_usize(args[4].as_str()) {
            Some(frame_num) => frame_num,
            None => {
                return Err("can't parse frame_num as usize");
            },
        };
        let name = to_lowercase(args[5].as_str());
        let vp9 = match codec_from_name(name.as_str()) {
            Some(vp9) => vp9,
            None => {
                return Err("only support vp8 and vp9");
            },
        };
        Ok(Webm { input, output, frame_num, vp9 })
    }

    /// Appends the file header to `out`.
    pub fn push_sequence_header(&self, out: &mut Vec<u8>)
        ensures
            final(out)@ == old(out)@ + sequence_header(self.vp9, self.frame_num as int),
    {
        let ghost start = out@;
        let tag: u8 = if self.vp9 {
            0x39
        } else {
            0x38
        };
        let fixed: [u8; 24] = [
            0x44,
            0x4b,
            0x49,
            0x46,
            0,
            0,
            32,
            0,
            0x56,
            0x50,
            tag,
            0x30,
            0,
            0,
            0,
            0,
            0xe8,
            0x03,
            0,
            0,
            1,
            0,
            0,
            0,
        ];
        out.extend_from_slice(fixed.as_slice());
        assert(out@ == start + fixed@);
        let n = self.frame_num;
        assert((n & 0xffff_ffff) <= 0xffff_ffff) by (bit_vector);
        let low: u32 = (n & 0xffff_ffff) as u32;
        proof {
            assert((n & 0xffff_ffff) % 256 == n % 256) by (bit_vector);
            assert((n & 0xffff_ffff) / 256 % 256 == n / 256 % 256) by (bit_vector);
            assert((n & 0xffff_ffff) / 65536 % 256 == n / 65536 % 256) by (bit_vector);
            assert((n & 0xffff_ffff) / 16777216 % 256 == n / 16777216 % 256) by (bit_vector);
            assert(le32_bytes(low as int) == le32_bytes(n as int));
        }
        push_le32(out, low);
        let unused: [u8; 4] = [0, 0, 0, 0];
        let ghost counted = out@;
        out.extend_from_slice(unused.as_slice());
        assert(out@ == counted + unused@);
        assert(fixed@ + le32_bytes(n as int) + unused@ == sequence_header(
            self.vp9,
            self.frame_num as int,
        ));
    }

    /// Appends the header of a frame of `len` bytes to `out`.
    pub fn push_frame_header(out: &mut Vec<u8>, len: u32)
        ensures
            final(out)@ == old(out)@ + frame_header(len as int),
    {
        let ghost start = out@;
        push_le32(out, len);
        let stamp: [u8; 8] = [0, 0, 0, 0, 0, 0, 0, 0];
        let ghost sized = out@;
        out.extend_from_slice(stamp.as_slice());
        assert(out@ == sized + stamp@);
        assert(le32_bytes(len as int) + stamp@ == frame_header(len as int));
    }

    /// Builds the IVF file from the demuxed frames: the file header, then
    /// `frame_num` frames at most, up to the first empty one.
    pub fn run(&self, frames: &[Vec<u8>]) -> (file: Vec<u8>)
        requires
            forall|i: int| 0 <= i < frames@.len() ==> (#[trigger] frames@[i])@.len() <= u32::MAX,
        ensures
            file@ == sequence_header(self.vp9, self.frame_num as int) + written_frames(
                frame_views(frames@),
                self.frame_num as int,
            ),
    {
        let ghost all = frame_views(frames@);
        let mut file: Vec<u8> = Vec::new();
        self.push_sequence_header(&mut file);
        let ghost head = file@;
        let count = frames.len();
        let mut i: usize = 0;
        let mut open = true;
        proof {
            assert(all.skip(0) == all);
            assert(file@ == head + Seq::<u8>::empty());
        }
        while open && i < count && i < self.frame_num
            invariant
                all == frame_views(frames@),
                count == frames@.len(),
                forall|k: int| 0 <= k < frames@.len() ==> (#[trigger] frames@[k])@.len() <= u32::MAX,
                0 <= i <= count,
                i <= self.frame_num,
                head + written_frames(all, self.frame_num as int) == file@ + if open {
                    written_frames(all.skip(i as int), self.frame_num - i)
                } else {
                    Seq::<u8>::empty()
                },
            decreases count - i, (if open { 1int } else { 0int }),
        {
            let frame = &frames[i];
            let ghost left = all.skip(i as int);
            let ghost before = file@;
            assert(left[0] == frame@);
            assert(left.drop_first() == all.skip(i + 1));
            if frame.len() == 0 {
                open = false;
                assert(file@ + Seq::<u8>::empty() == file@);
            } else {
                Self::push_frame_header(&mut file, frame.len() as u32);
                file.extend_from_slice(frame.as_slice());
                assert(file@ == before + frame_header(frame@.len() as int) + frame@);
                assert(file@ + written_frames(all.skip(i + 1), self.frame_num - i - 1) == before + (
                frame_header(frame@.len() as int) + frame@ + written_frames(
                    all.skip(i + 1),
                    self.frame_num - i - 1,
                )));
                i = i + 1;
            }
        }
        proof {
            if open {
                assert(written_frames(all.skip(i as int), self.frame_num - i) == Seq::<
                    u8,
                >::empty());
            }
            assert(file@ + Seq::<u8>::empty() == file@);
        }
        file
    }
}

} // verus!
