use rsplit::cursor::ByteCursor;
use rsplit::ivf::{header_with_count, push_le32, read_le32, Ivf, IvfSegment};
use rsplit::psnr::{plane_error, FrameError, Psnr};
use rsplit::webm::Webm;
use rsplit::yuv::{frame_layout, Yuv};

fn ivf_header(frames: u32) -> Vec<u8> {
    let mut header = vec![0x44, 0x4b, 0x49, 0x46, 0, 0, 32, 0, 0x56, 0x50, 0x38, 0x30];
    header.extend_from_slice(&[0x40, 0x01, 0xf0, 0x00, 30, 0, 0, 0, 1, 0, 0, 0]);
    header.extend_from_slice(&frames.to_le_bytes());
    header.extend_from_slice(&[0, 0, 0, 0]);
    header
}

fn ivf_frame(index: u8, data: &[u8]) -> Vec<u8> {
    let mut frame = Vec::new();
    frame.extend_from_slice(&(data.len() as u32).to_le_bytes());
    frame.extend_from_slice(&[index, 0, 0, 0, 0, 0, 0, 0]);
    frame.extend_from_slice(data);
    frame
}

fn ivf(frame_num: usize, vp9: bool) -> Ivf {
    Ivf { input: String::from("in.ivf"), output: String::from("out"), frame_num, vp9 }
}

fn ivf_ranges(segments: &[IvfSegment]) -> Vec<(usize, usize, usize)> {
    segments.iter().map(|s| (s.first, s.last, s.frames.len())).collect()
}

#[test]
fn little_endian_numbers_are_read_and_written() {
    assert_eq!(read_le32(&[0x78, 0x56, 0x34, 0x12]), 0x12345678);
    assert_eq!(read_le32(&[0xff, 0xff, 0xff, 0xff, 9]), u32::MAX);
    assert_eq!(read_le32(&[1, 0, 0, 0]), 1);
    assert_eq!(read_le32(&[0, 1, 0, 0]), 256);
    let mut out = vec![7];
    push_le32(&mut out, 0x12345678);
    push_le32(&mut out, 0);
    push_le32(&mut out, u32::MAX);
    assert_eq!(out, vec![7, 0x78, 0x56, 0x34, 0x12, 0, 0, 0, 0, 0xff, 0xff, 0xff, 0xff]);
    let header = ivf_header(100);
    let patched = header_with_count(&header, 0x01020304);
    assert_eq!(patched.len(), 32);
    assert_eq!(&patched[0..24], &header[0..24]);
    assert_eq!(&patched[24..28], &[4, 3, 2, 1]);
    assert_eq!(&patched[28..32], &header[28..32]);
}

#[test]
fn ivf_frame_is_read_with_its_header() {
    let mut stream = ivf_frame(3, &[0x10, 0xaa, 0xbb]);
    stream.extend_from_slice(&ivf_frame(4, &[0x11]));
    let mut cursor = ByteCursor::new(&stream);
    let frame = ivf(1, false).find_au_nal_units(&mut cursor).ok().unwrap();
    assert_eq!(frame.frame_header, vec![3, 0, 0, 0, 3, 0, 0, 0, 0, 0, 0, 0]);
    assert_eq!(frame.frame_data, vec![0x10, 0xaa, 0xbb]);
    assert!(frame.frame_location.is_empty());
    assert!(frame.idr_flag);
    assert_eq!(cursor.pos(), 15);
    let frame = ivf(1, false).find_au_nal_units(&mut cursor).ok().unwrap();
    assert_eq!(frame.frame_data, vec![0x11]);
    assert!(!frame.idr_flag);
    assert_eq!(cursor.pos(), stream.len());
    assert_eq!(
        ivf(1, false).find_au_nal_units(&mut cursor).err(),
        Some("bytes read 12 is not expected ...")
    );
    assert_eq!(cursor.pos(), stream.len());
}

#[test]
fn ivf_key_frames_are_told_from_the_first_byte() {
    for byte in 0u8..=255 {
        let stream = ivf_frame(0, &[byte]);
        let mut cursor = ByteCursor::new(&stream);
        let frame = ivf(1, false).find_au_nal_units(&mut cursor).ok().unwrap();
        assert_eq!(frame.idr_flag, byte & 1 == 0);
        let mut cursor = ByteCursor::new(&stream);
        let frame = ivf(1, true).find_au_nal_units(&mut cursor).ok().unwrap();
        assert_eq!(frame.idr_flag, byte & 0x0c == 0);
    }
}

#[test]
fn ivf_frame_that_cannot_be_read_is_refused() {
    let short = [5u8, 0, 0, 0, 0, 0, 0, 0, 0, 0, 0];
    let mut cursor = ByteCursor::new(&short);
    assert_eq!(
        ivf(1, false).find_au_nal_units(&mut cursor).err(),
        Some("bytes read 12 is not expected ...")
    );
    let mut stream = ivf_frame(0, &[1, 2, 3]);
    stream.pop();
    let mut cursor = ByteCursor::new(&stream);
    assert_eq!(
        ivf(1, false).find_au_nal_units(&mut cursor).err(),
        Some("bytes read buf size is not expected ...")
    );
    assert_eq!(cursor.pos(), 0);
    let stream = ivf_frame(0, &[]);
    let mut cursor = ByteCursor::new(&stream);
    assert_eq!(
        ivf(1, false).find_au_nal_units(&mut cursor).err(),
        Some("frame without data ...")
    );
    assert_eq!(cursor.pos(), 0);
}

#[test]
fn ivf_file_is_split_before_key_frames() {
    // K N N K N K, a minimum of 2
    let key = [0x10u8, 0xaa];
    let other = [0x11u8, 0xbb, 0xcc];
    let frames = vec![
        ivf_frame(0, &key),
        ivf_frame(1, &other),
        ivf_frame(2, &other),
        ivf_frame(3, &key),
        ivf_frame(4, &other),
        ivf_frame(5, &key),
    ];
    let mut stream = ivf_header(6);
    for frame in &frames {
        stream.extend_from_slice(frame);
    }
    let split = ivf(2, false);
    let segments = split.run(&stream).ok().unwrap();
    assert_eq!(ivf_ranges(&segments), vec![(0, 2, 3), (3, 4, 2), (5, 5, 1)]);
    assert_eq!(&segments[0].header[24..28], &[3, 0, 0, 0]);
    assert_eq!(&segments[1].header[24..28], &[2, 0, 0, 0]);
    assert_eq!(&segments[2].header[24..28], &[1, 0, 0, 0]);
    assert_eq!(&segments[0].header[0..24], &stream[0..24]);
    let mut first = ivf_header(3);
    first.extend_from_slice(&frames[0]);
    first.extend_from_slice(&frames[1]);
    first.extend_from_slice(&frames[2]);
    assert_eq!(segments[0].bytes(), first);
    let mut last = ivf_header(1);
    last.extend_from_slice(&frames[5]);
    assert_eq!(segments[2].bytes(), last);
    assert_eq!(split.segment_name(&segments[0]), "out_0000_0002.ivf");
    assert_eq!(split.segment_name(&segments[1]), "out_0003_0004.ivf");
    assert_eq!(split.segment_name(&segments[2]), "out_0005_0005.ivf");
    // a minimum of 3: only the cut at frame 3 is taken
    let segments = ivf(3, false).run(&stream).ok().unwrap();
    assert_eq!(ivf_ranges(&segments), vec![(0, 2, 3), (3, 5, 3)]);
    // a minimum of 0 cuts no empty file before the first frame
    let segments = ivf(0, false).run(&stream).ok().unwrap();
    assert_eq!(ivf_ranges(&segments), vec![(0, 2, 3), (3, 4, 2), (5, 5, 1)]);
}

#[test]
fn ivf_file_with_fewer_frames_than_declared_is_named_by_the_declared_count() {
    let mut stream = ivf_header(10);
    stream.extend_from_slice(&ivf_frame(0, &[0x10]));
    stream.extend_from_slice(&ivf_frame(1, &[0x11]));
    let segments = ivf(1, false).run(&stream).ok().unwrap();
    assert_eq!(ivf_ranges(&segments), vec![(0, 9, 2)]);
    assert_eq!(&segments[0].header[24..28], &[10, 0, 0, 0]);
    // more frames than declared: the rest is not read
    let mut stream = ivf_header(1);
    stream.extend_from_slice(&ivf_frame(0, &[0x10]));
    stream.extend_from_slice(&ivf_frame(1, &[0x10]));
    let segments = ivf(1, false).run(&stream).ok().unwrap();
    assert_eq!(ivf_ranges(&segments), vec![(0, 0, 1)]);
    // no count declared: ten thousand frames are assumed
    let mut stream = ivf_header(0);
    stream.extend_from_slice(&ivf_frame(0, &[0x10]));
    let segments = ivf(1, false).run(&stream).ok().unwrap();
    assert_eq!(ivf_ranges(&segments), vec![(0, 9999, 1)]);
    assert_eq!(&segments[0].header[24..28], &[0x10, 0x27, 0, 0]);
    // no frame at all
    let segments = ivf(1, false).run(&ivf_header(4)).ok().unwrap();
    assert_eq!(ivf_ranges(&segments), vec![(0, 3, 0)]);
    assert_eq!(segments[0].bytes(), ivf_header(4));
}

#[test]
fn ivf_file_without_its_header_is_refused() {
    assert_eq!(ivf(1, false).run(&[]).err(), Some("bytes read is not expected ..."));
    assert_eq!(
        ivf(1, false).run(&ivf_header(1)[0..31]).err(),
        Some("bytes read is not expected ...")
    );
    let mut bad = ivf_header(1);
    bad[3] = 0x47;
    assert_eq!(ivf(1, false).run(&bad).err(), Some("Not supported IVF format ..."));
}

#[test]
fn frame_lengths_follow_the_420_layout() {
    assert_eq!(frame_layout((4, 2)), Some((8, 2, 12)));
    assert_eq!(frame_layout((3, 3)), Some((9, 4, 17)));
    assert_eq!(frame_layout((1, 1)), Some((1, 1, 3)));
    assert_eq!(frame_layout((0, 0)), Some((0, 0, 0)));
    assert_eq!(frame_layout((0, 5)), Some((0, 0, 0)));
    assert_eq!(frame_layout((1920, 1080)), Some((2073600, 518400, 3110400)));
    assert_eq!(frame_layout((-1, 4)), None);
    assert_eq!(frame_layout((4, -1)), None);
    assert_eq!(frame_layout((46341, 46341)), None);
    assert_eq!(frame_layout((i32::MAX, i32::MAX)), None);
    // 37837 * 37837 * 3 / 2 is just above what an i32 holds
    assert_eq!(frame_layout((37836, 37836)), Some((1431562896, 357890724, 2147344344)));
    assert_eq!(frame_layout((37838, 37838)), None);
}

#[test]
fn yuv_file_is_cut_into_frames() {
    let yuv = Yuv {
        input_yuv: String::from("in.yuv"),
        output_prefix: String::from("out"),
        frame_num: 2,
        frame_size: vec![(2, 2), (4, 2)],
    };
    let stream: Vec<u8> = (0u8..20).collect();
    let frames = yuv.run(&stream).ok().unwrap();
    assert_eq!(frames.len(), 2);
    assert_eq!(frames[0], (0u8..6).collect::<Vec<u8>>());
    assert_eq!(frames[1], (6u8..18).collect::<Vec<u8>>());
    assert_eq!(yuv.run(&stream[0..17]).err(), Some("bytes read is not expected ..."));
    // the frames before the one that cannot be read come with the reason
    let (read, failure) = yuv.read_frames(&stream[0..17]);
    assert_eq!(read, vec![(0u8..6).collect::<Vec<u8>>()]);
    assert_eq!(failure, Some("bytes read is not expected ..."));
    let (read, failure) = yuv.read_frames(&stream[0..5]);
    assert!(read.is_empty());
    assert_eq!(failure, Some("bytes read is not expected ..."));
    let (read, failure) = yuv.read_frames(&stream);
    assert_eq!(read.len(), 2);
    assert_eq!(read[1], (6u8..18).collect::<Vec<u8>>());
    assert_eq!(failure, None);
    assert_eq!(yuv.run(&stream[0..18]).map(|f| f.len()), Ok(2));
    assert_eq!(yuv.frame_name(0), "out_0_2x2.yuv");
    assert_eq!(yuv.frame_name(1), "out_1_4x2.yuv");
    let odd = Yuv {
        input_yuv: String::new(),
        output_prefix: String::from("p"),
        frame_num: 1,
        frame_size: vec![(-3, 7)],
    };
    assert_eq!(odd.frame_name(0), "p_0_-3x7.yuv");
    assert_eq!(odd.run(&stream).err(), Some("bytes read is not expected ..."));
    let none = Yuv {
        input_yuv: String::new(),
        output_prefix: String::new(),
        frame_num: 0,
        frame_size: vec![],
    };
    assert_eq!(none.run(&stream), Ok(vec![]));
    assert!(none.is_well_formed());
    let loose = Yuv {
        input_yuv: String::new(),
        output_prefix: String::new(),
        frame_num: 2,
        frame_size: vec![(1, 1)],
    };
    assert!(!loose.is_well_formed());
}

#[test]
fn squared_errors_are_summed_per_plane() {
    assert_eq!(plane_error(&[], &[]), 0);
    assert_eq!(plane_error(&[1, 2, 3], &[1, 2, 3]), 0);
    assert_eq!(plane_error(&[0, 255, 10], &[255, 0, 7]), 65025 + 65025 + 9);
    let psnr = Psnr {
        input1_yuv: String::new(),
        input2_yuv: String::new(),
        frame_num: 2,
        frame_size: vec![(2, 2), (2, 1)],
    };
    // 2x2: 4 luma, 1 + 1 chroma; 2x1: 2 luma, 1 + 1 chroma
    let a = [10u8, 10, 10, 10, 20, 30, 1, 2, 3, 4];
    let b = [10u8, 11, 12, 13, 18, 35, 1, 2, 0, 8];
    let errors = psnr.run(&a, &b).ok().unwrap();
    assert_eq!(
        errors,
        vec![
            FrameError { luma: 14, cb: 4, cr: 25, luma_samples: 4, chroma_samples: 1 },
            FrameError { luma: 0, cb: 9, cr: 16, luma_samples: 2, chroma_samples: 1 },
        ]
    );
    assert_eq!(psnr.run(&a[0..9], &b).err(), Some("bytes read1 is not expected ..."));
    // the frames before the one that cannot be read come with the reason
    let (read, failure) = psnr.compare_frames(&a[0..9], &b);
    assert_eq!(
        read,
        vec![FrameError { luma: 14, cb: 4, cr: 25, luma_samples: 4, chroma_samples: 1 }]
    );
    assert_eq!(failure, Some("bytes read1 is not expected ..."));
    let (read, failure) = psnr.compare_frames(&a, &b[0..9]);
    assert_eq!(read.len(), 1);
    assert_eq!(failure, Some("bytes read2 is not expected ..."));
    let (read, failure) = psnr.compare_frames(&a[0..5], &b);
    assert!(read.is_empty());
    assert_eq!(failure, Some("bytes read1 is not expected ..."));
    let (read, failure) = psnr.compare_frames(&a, &b);
    assert_eq!(read.len(), 2);
    assert_eq!(failure, None);
    assert_eq!(psnr.run(&a, &b[0..9]).err(), Some("bytes read2 is not expected ..."));
    assert_eq!(psnr.run(&a[0..5], &b[0..5]).err(), Some("bytes read1 is not expected ..."));
    assert_eq!(psnr.run(&a, &b[0..5]).err(), Some("bytes read2 is not expected ..."));
}

#[test]
fn webm_frames_are_written_as_an_ivf_file() {
    let webm = Webm {
        input: String::from("in.webm"),
        output: String::from("out.ivf"),
        frame_num: 0x01020304,
        vp9: true,
    };
    let mut header = Vec::new();
    webm.push_sequence_header(&mut header);
    assert_eq!(
        header,
        vec![
            b'D', b'K', b'I', b'F', 0, 0, 32, 0, b'V', b'P', b'9', b'0', 0, 0, 0, 0, 0xe8, 0x03, 0,
            0, 1, 0, 0, 0, 4, 3, 2, 1, 0, 0, 0, 0
        ]
    );
    let mut frame_header = vec![9];
    Webm::push_frame_header(&mut frame_header, 0x0a0b0c0d);
    assert_eq!(frame_header, vec![9, 0x0d, 0x0c, 0x0b, 0x0a, 0, 0, 0, 0, 0, 0, 0, 0]);
    let vp8 = Webm { input: String::new(), output: String::new(), frame_num: 2, vp9: false };
    let frames = vec![vec![1u8, 2, 3], vec![4u8], vec![5u8, 6]];
    let file = vp8.run(&frames);
    let mut wanted = vec![
        b'D', b'K', b'I', b'F', 0, 0, 32, 0, b'V', b'P', b'8', b'0', 0, 0, 0, 0, 0xe8, 0x03, 0, 0,
        1, 0, 0, 0, 2, 0, 0, 0, 0, 0, 0, 0,
    ];
    wanted.extend_from_slice(&[3, 0, 0, 0, 0, 0, 0, 0, 0, 0, 0, 0, 1, 2, 3]);
    wanted.extend_from_slice(&[1, 0, 0, 0, 0, 0, 0, 0, 0, 0, 0, 0, 4]);
    assert_eq!(file, wanted);
    // an empty frame ends the file
    let frames = vec![vec![1u8, 2, 3], vec![], vec![5u8, 6]];
    let file = vp8.run(&frames);
    assert_eq!(file.len(), 32 + 12 + 3);
    // fewer frames than asked for
    let file = vp8.run(&frames[0..1]);
    assert_eq!(file.len(), 32 + 12 + 3);
    let file = vp8.run(&[]);
    assert_eq!(file.len(), 32);
}
