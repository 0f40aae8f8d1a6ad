//! Comparison of two files of raw 4:2:0 frames: for each frame, the sum of
//! the squared differences of the samples in each plane. The signal-to-noise
//! ratio follows from these sums and the plane sizes.

use vstd::prelude::*;
use crate::cursor::ByteCursor;
use crate::frame_size::{frame_sizes, lemma_frame_sizes_len, parse_frame_sizes};
use crate::text::{outcome, parse_usize, parsed_usize, words};
use crate::yuv::{chroma_samples, frame_bytes, frame_layout};

verus! {

/// The sum of the squared differences of two runs of samples of one length.
pub open spec fn squared_error(a: Seq<u8>, b: Seq<u8>) -> int
    decreases a.len(),
{
    if a.len() == 0 {
        0
    } else {
        squared_error(a.drop_last(), b.drop_last()) + (a.last() - b.last()) * (a.last() - b.last())
    }
}

/// The distortion of one frame.
#[derive(Clone, Copy, Debug, PartialEq, Eq, Structural)]
pub struct FrameError {
    /// Sum of squared differences in the luma plane.
    pub luma: u64,
    /// Sum of squared differences in the first chroma plane.
    pub cb: u64,
    /// Sum of squared differences in the second chroma plane.
    pub cr: u64,
    /// Number of samples in the luma plane.
    pub luma_samples: usize,
    /// Number of samples in each chroma plane.
    pub chroma_samples: usize,
}

/// The distortion between the frames of the given size that begin at `p`
/// in `a` and at `q` in `b`.
pub open spec fn frame_error(size: (i32, i32), a: Seq<u8>, p: int, b: Seq<u8>, q: int) -> FrameError {
    let luma = size.0 * size.1;
    let chroma = chroma_samples(size.0 as int, size.1 as int);
    FrameError {
        luma: squared_error(a.subrange(p, p + luma), b.subrange(q, q + luma)) as u64,
        cb: squared_error(
            a.subrange(p + luma, p + luma + chroma),
            b.subrange(q + luma, q + luma + chroma),
        ) as u64,
        cr: squared_error(
            a.subrange(p + luma + chroma, p + luma + 2 * chroma),
            b.subrange(q + luma + chroma, q + luma + 2 * chroma),
        ) as u64,
        luma_samples: luma as usize,
        chroma_samples: chroma as usize,
    }
}

/// The distortion of each frame, for frames of the given sizes read one
/// after the other from both files, or the reason why they cannot be read:
/// each size must be one that `frame_bytes` accepts, and both files must
/// hold the whole frame.
pub open spec fn frame_errors(sizes: Seq<(i32, i32)>, a: Seq<u8>, b: Seq<u8>, p: int) -> Result<
    Seq<FrameError>,
    Seq<char>,
>
    decreases sizes.len(),
{
    if sizes.len() == 0 {
        Ok(Seq::empty())
    } else {
        match frame_bytes(sizes[0]) {
            None => Err("bytes read1 is not expected ..."@),
            Some(len) => if p + len > a.len() {
                Err("bytes read1 is not expected ..."@)
            } else if p + len > b.len() {
                Err("bytes read2 is not expected ..."@)
            } else {
                match frame_errors(sizes.drop_first(), a, b, p + len) {
                    Ok(rest) => Ok(seq![frame_error(sizes[0], a, p, b, p)] + rest),
                    Err(text) => Err(text),
                }
            },
        }
    }
}

/// The distortion of the frames that can be read in full from both
/// files, one after the other from `p`, before the first that cannot.
pub open spec fn errors_read(sizes: Seq<(i32, i32)>, a: Seq<u8>, b: Seq<u8>, p: int) -> Seq<
    FrameError,
>
    decreases sizes.len(),
{
    if sizes.len() == 0 {
        Seq::empty()
    } else {
        match frame_bytes(sizes[0]) {
            None => Seq::empty(),
            Some(len) => if p + len > a.len() || p + len > b.len() {
                Seq::empty()
            } else {
                seq![frame_error(sizes[0], a, p, b, p)] + errors_read(
                    sizes.drop_first(),
                    a,
                    b,
                    p + len,
                )
            },
        }
    }
}

/// The sum of the squared differences of two planes of one length.
pub fn plane_error(a: &[u8], b: &[u8]) -> (sum: u64)
    requires
        a@.len() == b@.len(),
        65025 * a@.len() <= u64::MAX,
    ensures
        sum == squared_error(a@, b@),
{
    let n = a.len();
    let mut sum: u64 = 0;
    let mut i: usize = 0;
    assert(a@.take(0) == Seq::<u8>::empty());
    while i < n
        invariant
            n == a@.len(),
            n == b@.len(),
            65025 * n <= u64::MAX,
            0 <= i <= n,
            sum == squared_error(a@.take(i as int), b@.take(i as int)),
            sum <= 65025 * i,
        decreases n - i,
    {
        let x = a[i] as i64;
        let y = b[i] as i64;
        let d = x - y;
        assert(0 <= d * d <= 65025) by (nonlinear_arith)
            requires
                -255 <= d <= 255,
        ;
        proof {
            assert(a@.take(i + 1).drop_last() == a@.take(i as int));
            assert(b@.take(i + 1).drop_last() == b@.take(i as int));
        }
        sum = sum + (d * d) as u64;
        i = i + 1;
    }
    assert(a@.take(n as int) == a@);
    assert(b@.take(n as int) == b@);
    sum
}

/// The settings of one comparison.
pub struct Psnr {
    /// Path of the first file of raw frames.
    pub input1_yuv: String,
    /// Path of the second file of raw frames.
    pub input2_yuv: String,
    /// Number of frames to compare.
    pub frame_num: usize,
    /// Width and height of each frame.
    pub frame_size: Vec<(i32, i32)>,
}

/// The settings of a comparison, as mathematical values.
pub struct PsnrView {
    pub input1_yuv: Seq<char>,
    pub input2_yuv: Seq<char>,
    pub frame_num: usize,
    pub frame_size: Seq<(i32, i32)>,
}

impl PsnrView {
    /// There is one size for each frame.
    pub open spec fn wf(self) -> bool {
        self.frame_size.len() == self.frame_num
    }
}

impl View for Psnr {
    type V = PsnrView;

    open spec fn view(&self) -> PsnrView {
        PsnrView {
            input1_yuv: self.input1_yuv@,
            input2_yuv: self.input2_yuv@,
            frame_num: self.frame_num,
            frame_size: self.frame_size@,
        }
    }
}

/// The settings that the command-line words ask for: the two input paths
/// are the third and the fourth word, the number of frames the fifth, and
/// the frame sizes follow. Fewer than six words, a fifth that is no number
/// and a list of sizes that cannot be read are refused, in this order.
pub open spec fn psnr_settings(words: Seq<Seq<char>>) -> Result<PsnrView, Seq<char>> {
    if words.len() < 6 {
        Err("too less arguments for rsplit psnr mode"@)
    } else {
        match parsed_usize(words[4]) {
            None => Err("can't parse frame_num as usize"@),
            Some(frame_num) => match frame_sizes(
                words,
                frame_num as int,
                "too less arguments for rsplit psnr mode"@,
            ) {
                Err(text) => Err(text),
                Ok(frame_size) => Ok(
                    PsnrView { input1_yuv: words[2], input2_yuv: words[3], frame_num, frame_size },
                ),
            },
        }
    }
}

impl Psnr {
    /// How the comparison is called.
    pub fn helper() -> (usage: &'static str)
        ensures
            usage@
                == "Usage: rsplit psnr input1.yuv input2.yuv frame_num frame_size1 [...|frame_size2 ...]"@,
    {
        "Usage: rsplit psnr input1.yuv input2.yuv frame_num frame_size1 [...|frame_size2 ...]"
    }

    /// Reads the settings from the command-line words.
    pub fn new(args: &[String]) -> (made: Result<Psnr, &'static str>)
        ensures
            outcome(made) == psnr_settings(words(args@)),
            made matches Ok(psnr) ==> psnr@.wf(),
    {
        if args.len() < 6 {
            return Err("too less arguments for rsplit psnr mode");
        }
        let input1_yuv = args[2].clone();
        let input2_yuv = args[3].clone();
        let frame_num = match parse_usize(args[4].as_str()) {
            Some(frame_num) => frame_num,
            None => {
                return Err("can't parse frame_num as usize");
            },
        };
        proof {
            lemma_frame_sizes_len(
                words(args@),
                frame_num as int,
                "too less arguments for rsplit psnr mode"@,
                0,
                Seq::empty(),
            );
        }
        let frame_size = match parse_frame_sizes(
            args,
            frame_num,
            "too less arguments for rsplit psnr mode",
        ) {
            Ok(frame_size) => frame_size,
            Err(message) => {
                return Err(message);
            },
        };
        Ok(Psnr { input1_yuv, input2_yuv, frame_num, frame_size })
    }

    /// Whether there is one size for each frame.
    pub fn is_well_formed(&self) -> (ok: bool)
        ensures
            ok == self@.wf(),
    {
        self.frame_size.len() == self.frame_num
    }

    /// Compares the two files frame by frame, up to the first frame that
    /// cannot be read from both. Gives the distortion of the frames that
    /// were read and, where one could not be read, the reason.
    pub fn compare_frames(&self, first: &[u8], second: &[u8]) -> (out: (
        Vec<FrameError>,
        Option<&'static str>,
    ))
        requires
            self@.wf(),
        ensures
            out.0@ == errors_read(self.frame_size@, first@, second@, 0),
            match (out.1, frame_errors(self.frame_size@, first@, second@, 0)) {
                (None, Ok(wanted)) => out.0@ == wanted,
                (Some(message), Err(text)) => message@ == text,
                _ => false,
            },
    {
        let ghost a = first@;
        let ghost b = second@;
        let ghost sizes = self.frame_size@;
        let mut one = ByteCursor::new(first);
        let mut two = ByteCursor::new(second);
        let mut errors: Vec<FrameError> = Vec::new();
        let count = self.frame_size.len();
        let mut i: usize = 0;
        proof {
            assert(sizes.skip(0) == sizes);
            assert(errors@ + errors_read(sizes, a, b, 0) == errors_read(sizes, a, b, 0));
        }
        while i < count
            invariant
                a == first@,
                b == second@,
                sizes == self.frame_size@,
                count == sizes.len(),
                one.stream() == a,
                two.stream() == b,
                0 <= one.position() <= a.len(),
                one.position() == two.position(),
                two.position() <= b.len(),
                0 <= i <= count,
                errors@.len() == i,
                errors_read(sizes, a, b, 0) == errors@ + errors_read(
                    sizes.skip(i as int),
                    a,
                    b,
                    one.position(),
                ),
                match frame_errors(sizes.skip(i as int), a, b, one.position()) {
                    Ok(rest) => frame_errors(sizes, a, b, 0) == Ok::<Seq<FrameError>, Seq<char>>(
                        errors@ + rest,
                    ),
                    Err(text) => frame_errors(sizes, a, b, 0) == Err::<Seq<FrameError>, Seq<char>>(
                        text,
                    ),
                },
            decreases count - i,
        {
            let ghost left = sizes.skip(i as int);
            let ghost p = one.position();
            assert(left[0] == sizes[i as int]);
            assert(left.drop_first() == sizes.skip(i + 1));
            let size = self.frame_size[i];
            let (luma, chroma) = match frame_layout(size) {
                Some((luma, chroma, _)) => (luma, chroma),
                None => {
                    assert(errors@ + Seq::<FrameError>::empty() == errors@);
                    return (errors, Some("bytes read1 is not expected ..."));
                },
            };
            let len = luma + 2 * chroma;
            let x = match one.take(len) {
                Some(x) => x,
                None => {
                    assert(errors@ + Seq::<FrameError>::empty() == errors@);
                    return (errors, Some("bytes read1 is not expected ..."));
                },
            };
            let y = match two.take(len) {
                Some(y) => y,
                None => {
                    assert(errors@ + Seq::<FrameError>::empty() == errors@);
                    return (errors, Some("bytes read2 is not expected ..."));
                },
            };
            let error = FrameError {
                luma: plane_error(
                    vstd::slice::slice_subrange(x, 0, luma),
                    vstd::slice::slice_subrange(y, 0, luma),
                ),
                cb: plane_error(
                    vstd::slice::slice_subrange(x, luma, luma + chroma),
                    vstd::slice::slice_subrange(y, luma, luma + chroma),
                ),
                cr: plane_error(
                    vstd::slice::slice_subrange(x, luma + chroma, len),
                    vstd::slice::slice_subrange(y, luma + chroma, len),
                ),
                luma_samples: luma,
                chroma_samples: chroma,
            };
            proof {
                assert(x@.subrange(0, luma as int) == a.subrange(p, p + luma));
                assert(y@.subrange(0, luma as int) == b.subrange(p, p + luma));
                assert(x@.subrange(luma as int, luma + chroma) == a.subrange(
                    p + luma,
                    p + luma + chroma,
                ));
                assert(y@.subrange(luma as int, luma + chroma) == b.subrange(
                    p + luma,
                    p + luma + chroma,
                ));
                assert(x@.subrange(luma + chroma, len as int) == a.subrange(
                    p + luma + chroma,
                    p + luma + 2 * chroma,
                ));
                assert(y@.subrange(luma + chroma, len as int) == b.subrange(
                    p + luma + chroma,
                    p + luma + 2 * chroma,
                ));
                assert(error == frame_error(size, a, p, b, p));
            }
            let ghost before = errors@;
            errors.push(error);
            proof {
                let more = errors_read(sizes.skip(i + 1), a, b, p + len);
                assert(before + (seq![error] + more) == errors@ + more);
                match frame_errors(sizes.skip(i + 1), a, b, p + len) {
                    Ok(rest) => {
                        assert(before + (seq![error] + rest) == errors@ + rest);
                    },
                    Err(_) => {},
                }
            }
            i = i + 1;
        }
        assert(sizes.skip(count as int) == Seq::<(i32, i32)>::empty());
        assert(errors@ + Seq::<FrameError>::empty() == errors@);
        (errors, None)
    }

    /// Compares the two files frame by frame; where a frame cannot be read
    /// from both, gives the reason and no distortion.
    pub fn run(&self, first: &[u8], second: &[u8]) -> (out: Result<Vec<FrameError>, &'static str>)
        requires
            self@.wf(),
        ensures
            match (out, frame_errors(self.frame_size@, first@, second@, 0)) {
                (Ok(errors), Ok(wanted)) => errors@ == wanted,
                (Err(message), Err(text)) => message@ == text,
                _ => false,
            },
    {
        let (errors, failure) = self.compare_frames(first, second);
        match failure {
            None => Ok(errors),
            Some(message) => Err(message),
        }
    }
}

} // verus!
