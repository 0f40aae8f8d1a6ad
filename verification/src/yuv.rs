//! Splitting of a file of raw 4:2:0 frames into one file per frame. A
//! frame of `w` by `h` pixels holds `w * h` luma samples and two chroma
//! planes of half the width and half the height, each rounded up.

use vstd::prelude::*;
use vstd::string::StringExecFns;
use crate::cursor::ByteCursor;
use crate::frame_size::{frame_sizes, lemma_frame_sizes_len, parse_frame_sizes};
use crate::text::{
    decimal_digits, outcome, parse_usize, parsed_usize, push_decimal, push_signed,
    signed_decimal, words,
};

verus! {

/// The number of samples in one chroma plane.
pub open spec fn chroma_samples(width: int, height: int) -> int {
    ((width + 1) / 2) * ((height + 1) / 2)
}

/// The number of bytes in a frame.
pub open spec fn frame_len(width: int, height: int) -> int {
    width * height + 2 * chroma_samples(width, height)
}

/// The number of bytes in a frame of the given size, where the width and
/// the height are not negative and the number is one that an `i32` holds.
pub open spec fn frame_bytes(size: (i32, i32)) -> Option<usize> {
    if size.0 >= 0 && size.1 >= 0 && frame_len(size.0 as int, size.1 as int) <= i32::MAX {
        Some(frame_len(size.0 as int, size.1 as int) as usize)
    } else {
        None
    }
}

/// The products that make up a frame's length are not negative and stay
/// far below what an `i64` holds.
proof fn lemma_frame_products(width: int, height: int)
    requires
        0 <= width <= i32::MAX,
        0 <= height <= i32::MAX,
    ensures
        0 <= width * height <= 0x3fff_ffff_0000_0001,
        0 <= chroma_samples(width, height) <= 0x1000_0000_0000_0000,
{
    assert(0 <= width * height <= 0x7fff_ffff * 0x7fff_ffff) by (nonlinear_arith)
        requires
            0 <= width <= 0x7fff_ffff,
            0 <= height <= 0x7fff_ffff,
    ;
    let a = (width + 1) / 2;
    let b = (height + 1) / 2;
    assert(0 <= a * b <= 0x4000_0000 * 0x4000_0000) by (nonlinear_arith)
        requires
            0 <= a <= 0x4000_0000,
            0 <= b <= 0x4000_0000,
    ;
}

/// The number of samples in the luma plane and in one chroma plane, and
/// the number of bytes in the frame; `None` for a size that `frame_bytes`
/// refuses.
pub fn frame_layout(size: (i32, i32)) -> (layout: Option<(usize, usize, usize)>)
    ensures
        frame_bytes(size).is_none() ==> layout.is_none(),
        frame_bytes(size).is_some() ==> layout == Some(
            (
                (size.0 * size.1) as usize,
                chroma_samples(size.0 as int, size.1 as int) as usize,
                frame_bytes(size).unwrap(),
            ),
        ),
{
    let (width, height) = size;
    if width < 0 || height < 0 {
        return None;
    }
    proof {
        lemma_frame_products(width as int, height as int);
    }
    let luma: i64 = (width as i64) * (height as i64);
    let chroma: i64 = ((width as i64 + 1) / 2) * ((height as i64 + 1) / 2);
    let total: i64 = luma + 2 * chroma;
    if total > 0x7fff_ffff {
        return None;
    }
    Some((luma as usize, chroma as usize, total as usize))
}

/// The frames of the given sizes read one after the other from `p`, or
/// the reason why they cannot be read: each size must be one that
/// `frame_bytes` accepts, and the file must hold the whole frame.
pub open spec fn yuv_frames(sizes: Seq<(i32, i32)>, s: Seq<u8>, p: int) -> Result<
    Seq<Seq<u8>>,
    Seq<char>,
>
    decreases sizes.len(),
{
    if sizes.len() == 0 {
        Ok(Seq::empty())
    } else {
        match frame_bytes(sizes[0]) {
            None => Err("bytes read is not expected ..."@),
            Some(len) => if p + len > s.len() {
                Err("bytes read is not expected ..."@)
            } else {
                match yuv_frames(sizes.drop_first(), s, p + len) {
                    Ok(rest) => Ok(seq![s.subrange(p, p + len)] + rest),
                    Err(text) => Err(text),
                }
            },
        }
    }
}

/// The frames of the given sizes that can be read in full, one after the
/// other from `p`, before the first that cannot.
pub open spec fn frames_read(sizes: Seq<(i32, i32)>, s: Seq<u8>, p: int) -> Seq<Seq<u8>>
    decreases sizes.len(),
{
    if sizes.len() == 0 {
        Seq::empty()
    } else {
        match frame_bytes(sizes[0]) {
            None => Seq::empty(),
            Some(len) => if p + len > s.len() {
                Seq::empty()
            } else {
                seq![s.subrange(p, p + len)] + frames_read(sizes.drop_first(), s, p + len)
            },
        }
    }
}

/// The contents of a vector of frames.
pub open spec fn frame_views(frames: Seq<Vec<u8>>) -> Seq<Seq<u8>> {
    frames.map_values(|frame: Vec<u8>| frame@)
}

/// The name of the file of frame `index`: the prefix, the index, and the
/// width and height of the frame.
pub open spec fn frame_name(prefix: Seq<char>, index: nat, size: (i32, i32)) -> Seq<char> {
    prefix + seq!['_'] + decimal_digits(index) + seq!['_'] + signed_decimal(size.0 as int) + seq![
        'x',
    ] + signed_decimal(size.1 as int) + seq!['.', 'y', 'u', 'v']
}

/// The settings of one split.
pub struct Yuv {
    /// Path of the file of raw frames.
    pub input_yuv: String,
    /// Prefix of the names of the files to write.
    pub output_prefix: String,
    /// Number of frames to split off.
    pub frame_num: usize,
    /// Width and height of each frame.
    pub frame_size: Vec<(i32, i32)>,
}

/// The settings of a split, as mathematical values.
pub struct YuvView {
    pub input_yuv: Seq<char>,
    pub output_prefix: Seq<char>,
    pub frame_num: usize,
    pub frame_size: Seq<(i32, i32)>,
}

impl YuvView {
    /// There is one size for each frame.
    pub open spec fn wf(self) -> bool {
        self.frame_size.len() == self.frame_num
    }
}

impl View for Yuv {
    type V = YuvView;

    open spec fn view(&self) -> YuvView {
        YuvView {
            input_yuv: self.input_yuv@,
            output_prefix: self.output_prefix@,
            frame_num: self.frame_num,
            frame_size: self.frame_size@,
        }
    }
}

/// The settings that the command-line words ask for: the input path is
/// the third word, the output prefix the fourth, the number of frames the
/// fifth, and the frame sizes follow. Fewer than six words, a fifth that
/// is no number and a list of sizes that cannot be read are refused, in
/// this order.
pub open spec fn yuv_settings(words: Seq<Seq<char>>) -> Result<YuvView, Seq<char>> {
    if words.len() < 6 {
        Err("too less arguments for rsplit yuv mode"@)
    } else {
        match parsed_usize(words[4]) {
            None => Err("can't parse frame_num as usize"@),
            Some(frame_num) => match frame_sizes(
                words,
                frame_num as int,
                "too less arguments for rsplit yuv mode"@,
            ) {
                Err(text) => Err(text),
                Ok(frame_size) => Ok(
                    YuvView { input_yuv: words[2], output_prefix: words[3], frame_num, frame_size },
                ),
            },
        }
    }
}

impl Yuv {
    /// How the splitter is called.
    pub fn helper() -> (usage: &'static str)
        ensures
            usage@
                == "Usage: rsplit yuv input.yuv output_prefix frame_num frame_size1 [...|frame_size2 ...]"@,
    {
        "Usage: rsplit yuv input.yuv output_prefix frame_num frame_size1 [...|frame_size2 ...]"
    }

    /// Reads the settings from the command-line words.
    pub fn new(args: &[String]) -> (made: Result<Yuv, &'static str>)
        ensures
            outcome(made) == yuv_settings(words(args@)),
            made matches Ok(yuv) ==> yuv@.wf(),
    {
        if args.len() < 6 {
            return Err("too less arguments for rsplit yuv mode");
        }
        let input_yuv = args[2].clone();
        let output_prefix = args[3].clone();
        let frame_num = match parse_usize(args[4].as_str()) {
            Some(frame_num) => frame_num,
            None => {
                return Err("can't parse frame_num as usize");
            },
        };
        proof {
            lemma_frame_sizes_len(
                words(args@),
                frame_num as int,
                "too less arguments for rsplit yuv mode"@,
                0,
                Seq::empty(),
            );
        }
        let frame_size = match parse_frame_sizes(
            args,
            frame_num,
            "too less arguments for rsplit yuv mode",
        ) {
            Ok(frame_size) => frame_size,
            Err(message) => {
                return Err(message);
            },
        };
        Ok(Yuv { input_yuv, output_prefix, frame_num, frame_size })
    }

    /// Whether there is one size for each frame.
    pub fn is_well_formed(&self) -> (ok: bool)
        ensures
            ok == self@.wf(),
    {
        self.frame_size.len() == self.frame_num
    }

    /// The name of the file of frame `index`.
    pub fn frame_name(&self, index: usize) -> (name: String)
        requires
            index < self.frame_size@.len(),
        ensures
            name@ == frame_name(self.output_prefix@, index as nat, self.frame_size@[index as int]),
    {
        proof {
            reveal_strlit("_");
            reveal_strlit("x");
            reveal_strlit(".yuv");
            assert("_"@ =~= seq!['_']);
            assert("x"@ =~= seq!['x']);
            assert(".yuv"@ =~= seq!['.', 'y', 'u', 'v']);
        }
        let (width, height) = self.frame_size[index];
        let mut name = String::from_str(self.output_prefix.as_str());
        name.append("_");
        push_decimal(&mut name, index);
        name.append("_");
        push_signed(&mut name, width);
        name.append("x");
        push_signed(&mut name, height);
        name.append(".yuv");
        name
    }

    /// Cuts the frames out of `stream`, one after the other, each with the
    /// length that its size gives, up to the first that cannot be read.
    /// Gives the frames that were read in full and, where one could not be
    /// read, the reason.
    pub fn read_frames(&self, stream: &[u8]) -> (out: (Vec<Vec<u8>>, Option<&'static str>))
        requires
            self@.wf(),
        ensures
            frame_views(out.0@) == frames_read(self.frame_size@, stream@, 0),
            match (out.1, yuv_frames(self.frame_size@, stream@, 0)) {
                (None, Ok(wanted)) => frame_views(out.0@) == wanted,
                (Some(message), Err(text)) => message@ == text,
                _ => false,
            },
    {
        let ghost s = stream@;
        let ghost sizes = self.frame_size@;
        let mut cursor = ByteCursor::new(stream);
        let mut frames: Vec<Vec<u8>> = Vec::new();
        let count = self.frame_size.len();
        let mut i: usize = 0;
        proof {
            assert(sizes.skip(0) == sizes);
            assert(frame_views(frames@) == Seq::<Seq<u8>>::empty());
            assert(frame_views(frames@) + frames_read(sizes, s, 0) == frames_read(sizes, s, 0));
        }
        while i < count
            invariant
                s == stream@,
                sizes == self.frame_size@,
                count == sizes.len(),
                cursor.stream() == s,
                0 <= cursor.position() <= s.len(),
                0 <= i <= count,
                frames@.len() == i,
                frames_read(sizes, s, 0) == frame_views(frames@) + frames_read(
                    sizes.skip(i as int),
                    s,
                    cursor.position(),
                ),
                match yuv_frames(sizes.skip(i as int), s, cursor.position()) {
                    Ok(rest) => yuv_frames(sizes, s, 0) == Ok::<Seq<Seq<u8>>, Seq<char>>(
                        frame_views(frames@) + rest,
                    ),
                    Err(text) => yuv_frames(sizes, s, 0) == Err::<Seq<Seq<u8>>, Seq<char>>(text),
                },
            decreases count - i,
        {
            let ghost left = sizes.skip(i as int);
            let ghost p = cursor.position();
            let ghost before = frame_views(frames@);
            assert(left[0] == sizes[i as int]);
            assert(left.drop_first() == sizes.skip(i + 1));
            let len = match frame_layout(self.frame_size[i]) {
                Some((_, _, len)) => len,
                None => {
                    assert(before + Seq::<Seq<u8>>::empty() == before);
                    return (frames, Some("bytes read is not expected ..."));
                },
            };
            let bytes = match cursor.take(len) {
                Some(bytes) => bytes,
                None => {
                    assert(before + Seq::<Seq<u8>>::empty() == before);
                    return (frames, Some("bytes read is not expected ..."));
                },
            };
            let mut frame: Vec<u8> = Vec::new();
            frame.extend_from_slice(bytes);
            assert(frame@ == s.subrange(p, p + len));
            frames.push(frame);
            assert(frame_views(frames@) == before.push(s.subrange(p, p + len)));
            proof {
                let more = frames_read(sizes.skip(i + 1), s, p + len);
                assert(before + (seq![s.subrange(p, p + len)] + more) == frame_views(frames@)
                    + more);
                match yuv_frames(sizes.skip(i + 1), s, p + len) {
                    Ok(rest) => {
                        assert(before + (seq![s.subrange(p, p + len)] + rest) == frame_views(frames@)
                            + rest);
                    },
                    Err(_) => {},
                }
            }
            i = i + 1;
        }
        assert(sizes.skip(count as int) == Seq::<(i32, i32)>::empty());
        assert(frame_views(frames@) + Seq::<Seq<u8>>::empty() == frame_views(frames@));
        (frames, None)
    }

    /// Cuts the frames out of `stream`, one after the other, each with the
    /// length that its size gives; where one cannot be read, gives the
    /// reason and no frame.
    pub fn run(&self, stream: &[u8]) -> (out: Result<Vec<Vec<u8>>, &'static str>)
        requires
            self@.wf(),
        ensures
            match (out, yuv_frames(self.frame_size@, stream@, 0)) {
                (Ok(frames), Ok(wanted)) => frame_views(frames@) == wanted,
                (Err(message), Err(text)) => message@ == text,
                _ => false,
            },
    {
        let (frames, failure) = self.read_frames(stream);
        match failure {
            None => Ok(frames),
            Some(message) => Err(message),
        }
    }
}

} // verus!
