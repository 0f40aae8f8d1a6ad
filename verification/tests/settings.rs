use rsplit::bin::Bin;
use rsplit::frame_size::{parse_frame_size, parse_frame_sizes};
use rsplit::ivf::Ivf;
use rsplit::psnr::Psnr;
use rsplit::text::{
    decimal_len, make_range_name, parse_i32, parse_usize, push_decimal, push_padded,
    push_signed, str_eq,
};
use rsplit::webm::Webm;
use rsplit::yuv::Yuv;

fn words(list: &[&str]) -> Vec<String> {
    list.iter().map(|w| String::from(*w)).collect()
}

#[test]
fn unsigned_numbers_are_read_as_std_reads_them() {
    let cases = [
        "0", "7", "007", "+5", "12345", "", "+", "-", "-0", "-1", "++1", "+-1", "1 ", " 1",
        "1_000", "0x10", "12a", "a12", "１２", "18446744073709551615", "18446744073709551616",
        "99999999999999999999999", "4294967295", "4294967296", "+0000000000000000000000001",
    ];
    for text in cases {
        assert_eq!(parse_usize(text), text.parse::<usize>().ok(), "{:?}", text);
    }
    assert_eq!(parse_usize("30"), Some(30));
    assert_eq!(parse_usize("+30"), Some(30));
    assert_eq!(parse_usize(""), None);
    assert_eq!(parse_usize("-3"), None);
}

#[test]
fn signed_numbers_are_read_as_std_reads_them() {
    let cases = [
        "0", "-0", "+0", "7", "-7", "+7", "", "+", "-", "--1", "-+1", "+-1", "1-", "12a",
        "2147483647", "2147483648", "-2147483648", "-2147483649", "+2147483647",
        "99999999999", "-99999999999", "0000000000000000042", "-0000000000000000042", " 1",
    ];
    for text in cases {
        assert_eq!(parse_i32(text), text.parse::<i32>().ok(), "{:?}", text);
    }
    assert_eq!(parse_i32("-2147483648"), Some(i32::MIN));
    assert_eq!(parse_i32("2147483647"), Some(i32::MAX));
    assert_eq!(parse_i32("640"), Some(640));
}

#[test]
fn strings_compare_by_their_characters() {
    assert!(str_eq("", ""));
    assert!(str_eq("...", "..."));
    assert!(!str_eq("...", ".."));
    assert!(!str_eq("abc", "abd"));
    assert!(str_eq("héllo", "héllo"));
    assert!(!str_eq("héllo", "hello"));
}

#[test]
fn numbers_are_written_in_base_ten() {
    let mut out = String::from("n=");
    push_decimal(&mut out, 0);
    out.push(',');
    push_decimal(&mut out, 9);
    out.push(',');
    push_decimal(&mut out, 10);
    out.push(',');
    push_decimal(&mut out, 1234567890);
    assert_eq!(out, "n=0,9,10,1234567890");
    let mut out = String::new();
    push_decimal(&mut out, usize::MAX);
    assert_eq!(out, usize::MAX.to_string());
    assert_eq!(decimal_len(0), 1);
    assert_eq!(decimal_len(9), 1);
    assert_eq!(decimal_len(10), 2);
    assert_eq!(decimal_len(99999), 5);
    for n in [0usize, 1, 9, 10, 99, 100, 999, 1000, 9999, 10000, 123456] {
        let mut out = String::new();
        push_padded(&mut out, n, 4);
        assert_eq!(out, format!("{:04}", n));
        let mut out = String::new();
        push_padded(&mut out, n, 0);
        assert_eq!(out, format!("{}", n));
        let mut out = String::new();
        push_decimal(&mut out, n);
        assert_eq!(parse_usize(&out), Some(n));
    }
    for n in [0i32, 1, -1, 42, -42, i32::MAX, i32::MIN] {
        let mut out = String::from("v");
        push_signed(&mut out, n);
        assert_eq!(out, format!("v{}", n));
    }
}

#[test]
fn range_names_are_built_from_prefix_indices_and_extension() {
    assert_eq!(make_range_name("out", 0, 2, "bin"), "out_0000_0002.bin");
    assert_eq!(make_range_name("a/b", 12, 345, "ivf"), "a/b_0012_0345.ivf");
    assert_eq!(make_range_name("", 9999, 10000, ""), "_9999_10000.");
}

#[test]
fn frame_sizes_need_one_x_between_two_numbers() {
    assert_eq!(parse_frame_size("640x480"), Ok((640, 480)));
    assert_eq!(parse_frame_size("+1x-2"), Ok((1, -2)));
    assert_eq!(parse_frame_size("0x0"), Ok((0, 0)));
    assert_eq!(parse_frame_size("640"), Err("invalid frame size"));
    assert_eq!(parse_frame_size(""), Err("invalid frame size"));
    assert_eq!(parse_frame_size("1x2x3"), Err("invalid frame size"));
    assert_eq!(parse_frame_size("xx"), Err("invalid frame size"));
    assert_eq!(parse_frame_size("x"), Err("invalid frame width"));
    assert_eq!(parse_frame_size("x480"), Err("invalid frame width"));
    assert_eq!(parse_frame_size("ax480"), Err("invalid frame width"));
    assert_eq!(parse_frame_size("640x"), Err("invalid frame height"));
    assert_eq!(parse_frame_size("640xb"), Err("invalid frame height"));
    assert_eq!(parse_frame_size("640X480"), Err("invalid frame size"));
    assert_eq!(parse_frame_size("99999999999x1"), Err("invalid frame width"));
}

#[test]
fn frame_size_lists_repeat_the_last_size_after_dots() {
    let args = words(&["rsplit", "yuv", "in", "out", "4", "16x8", "32x16", "..."]);
    assert_eq!(parse_frame_sizes(&args, 4, "few"), Ok(vec![(16, 8), (32, 16), (32, 16), (32, 16)]));
    assert_eq!(parse_frame_sizes(&args, 2, "few"), Ok(vec![(16, 8), (32, 16)]));
    assert_eq!(parse_frame_sizes(&args, 0, "few"), Ok(vec![]));
    let args = words(&["rsplit", "yuv", "in", "out", "3", "16x8", "32x16"]);
    assert_eq!(parse_frame_sizes(&args, 3, "few"), Err("few"));
    let args = words(&["rsplit", "yuv", "in", "out", "3", "...", "32x16"]);
    assert_eq!(parse_frame_sizes(&args, 3, "few"), Err("... can't be the first frame size"));
    let args = words(&["rsplit", "yuv", "in", "out", "3", "16x8", "bad", "..."]);
    assert_eq!(parse_frame_sizes(&args, 3, "few"), Err("invalid frame size"));
    // what follows the dots is not read
    let args = words(&["rsplit", "yuv", "in", "out", "3", "16x8", "...", "bad"]);
    assert_eq!(parse_frame_sizes(&args, 3, "few"), Ok(vec![(16, 8), (16, 8), (16, 8)]));
    let args = words(&["rsplit", "yuv"]);
    assert_eq!(parse_frame_sizes(&args, 1, "few"), Err("few"));
    assert_eq!(parse_frame_sizes(&args, 0, "few"), Ok(vec![]));
}

#[test]
fn bin_settings_are_read_from_the_words() {
    let bin = Bin::new(&words(&["rsplit", "bin", "in.bin", "out", "30", "h264"])).ok().unwrap();
    assert_eq!(bin.input, "in.bin");
    assert_eq!(bin.output, "out");
    assert_eq!(bin.frame_num, 30);
    assert!(!bin.h265);
    let bin = Bin::new(&words(&["rsplit", "bin", "a", "b", "0", "h265", "more"])).ok().unwrap();
    assert_eq!(bin.frame_num, 0);
    assert!(bin.h265);
}

#[test]
fn codec_names_are_read_in_any_case() {
    // the name is turned to lower case before it is looked at
    let bin = Bin::new(&words(&["rsplit", "bin", "a", "b", "1", "H265"])).ok().unwrap();
    assert!(bin.h265);
    let bin = Bin::new(&words(&["rsplit", "bin", "a", "b", "1", "H264"])).ok().unwrap();
    assert!(!bin.h265);
    let ivf = Ivf::new(&words(&["rsplit", "ivf", "a", "b", "1", "Vp9"])).ok().unwrap();
    assert!(ivf.vp9);
    let webm = Webm::new(&words(&["rsplit", "webm", "a", "b", "1", "VP8"])).ok().unwrap();
    assert!(!webm.vp9);
    assert_eq!(rsplit::bin::codec_from_name("h265"), Some(true));
    assert_eq!(rsplit::bin::codec_from_name("h264"), Some(false));
    assert_eq!(rsplit::bin::codec_from_name("H265"), None);
    assert_eq!(rsplit::bin::codec_from_name(""), None);
    assert_eq!(rsplit::ivf::codec_from_name("vp9"), Some(true));
    assert_eq!(rsplit::ivf::codec_from_name("vp8"), Some(false));
    assert_eq!(rsplit::ivf::codec_from_name("VP8"), None);
}

#[test]
fn bin_settings_are_refused_in_order() {
    assert_eq!(
        Bin::new(&words(&["rsplit", "bin", "a", "b", "x"])).err(),
        Some("too less arguments for rsplit bin mode")
    );
    assert_eq!(Bin::new(&[]).err(), Some("too less arguments for rsplit bin mode"));
    assert_eq!(
        Bin::new(&words(&["rsplit", "bin", "a", "b", "x", "h266"])).err(),
        Some("can't parse frame_num as usize")
    );
    assert_eq!(
        Bin::new(&words(&["rsplit", "bin", "a", "b", "-1", "h264"])).err(),
        Some("can't parse frame_num as usize")
    );
    assert_eq!(
        Bin::new(&words(&["rsplit", "bin", "a", "b", "1", "h266"])).err(),
        Some("only support h264 and h265")
    );
    assert_eq!(
        Bin::new(&words(&["rsplit", "bin", "a", "b", "1", "vp9"])).err(),
        Some("only support h264 and h265")
    );
}

#[test]
fn ivf_settings_are_read_and_refused() {
    let ivf = Ivf::new(&words(&["rsplit", "ivf", "in.ivf", "out", "12", "vp8"])).ok().unwrap();
    assert_eq!(ivf.input, "in.ivf");
    assert_eq!(ivf.output, "out");
    assert_eq!(ivf.frame_num, 12);
    assert!(!ivf.vp9);
    assert_eq!(
        Ivf::new(&words(&["rsplit", "ivf", "a", "b", "1"])).err(),
        Some("too less arguments for rsplit ivf mode")
    );
    assert_eq!(
        Ivf::new(&words(&["rsplit", "ivf", "a", "b", "", "vp8"])).err(),
        Some("can't parse frame_num as usize")
    );
    assert_eq!(
        Ivf::new(&words(&["rsplit", "ivf", "a", "b", "1", "h264"])).err(),
        Some("only support vp8 and vp9")
    );
}

#[test]
fn webm_settings_are_read_and_refused() {
    let webm = Webm::new(&words(&["rsplit", "webm", "in.webm", "o.ivf", "5", "vp9"])).ok().unwrap();
    assert_eq!(webm.input, "in.webm");
    assert_eq!(webm.output, "o.ivf");
    assert_eq!(webm.frame_num, 5);
    assert!(webm.vp9);
    assert_eq!(
        Webm::new(&words(&["rsplit", "webm", "a"])).err(),
        Some("too less arguments for rsplit webm mode")
    );
    assert_eq!(
        Webm::new(&words(&["rsplit", "webm", "a", "b", "z", "vp8"])).err(),
        Some("can't parse frame_num as usize")
    );
    assert_eq!(
        Webm::new(&words(&["rsplit", "webm", "a", "b", "1", "av1"])).err(),
        Some("only support vp8 and vp9")
    );
}

#[test]
fn yuv_settings_are_read_and_refused() {
    let yuv =
        Yuv::new(&words(&["rsplit", "yuv", "in.yuv", "out", "3", "16x8", "..."])).ok().unwrap();
    assert_eq!(yuv.input_yuv, "in.yuv");
    assert_eq!(yuv.output_prefix, "out");
    assert_eq!(yuv.frame_num, 3);
    assert_eq!(yuv.frame_size, vec![(16, 8), (16, 8), (16, 8)]);
    assert!(yuv.is_well_formed());
    assert_eq!(
        Yuv::new(&words(&["rsplit", "yuv", "a", "b", "1"])).err(),
        Some("too less arguments for rsplit yuv mode")
    );
    assert_eq!(
        Yuv::new(&words(&["rsplit", "yuv", "a", "b", "n", "16x8"])).err(),
        Some("can't parse frame_num as usize")
    );
    assert_eq!(
        Yuv::new(&words(&["rsplit", "yuv", "a", "b", "2", "16x8"])).err(),
        Some("too less arguments for rsplit yuv mode")
    );
    assert_eq!(
        Yuv::new(&words(&["rsplit", "yuv", "a", "b", "2", "..."])).err(),
        Some("... can't be the first frame size")
    );
    assert_eq!(
        Yuv::new(&words(&["rsplit", "yuv", "a", "b", "1", "16"])).err(),
        Some("invalid frame size")
    );
    assert_eq!(
        Yuv::new(&words(&["rsplit", "yuv", "a", "b", "1", "wx8"])).err(),
        Some("invalid frame width")
    );
    assert_eq!(
        Yuv::new(&words(&["rsplit", "yuv", "a", "b", "1", "16xh"])).err(),
        Some("invalid frame height")
    );
    // no frame at all: the sixth word is not read
    let yuv = Yuv::new(&words(&["rsplit", "yuv", "a", "b", "0", "junk"])).ok().unwrap();
    assert!(yuv.frame_size.is_empty());
}

#[test]
fn psnr_settings_are_read_and_refused() {
    let psnr =
        Psnr::new(&words(&["rsplit", "psnr", "a.yuv", "b.yuv", "2", "4x2", "2x2"])).ok().unwrap();
    assert_eq!(psnr.input1_yuv, "a.yuv");
    assert_eq!(psnr.input2_yuv, "b.yuv");
    assert_eq!(psnr.frame_num, 2);
    assert_eq!(psnr.frame_size, vec![(4, 2), (2, 2)]);
    assert!(psnr.is_well_formed());
    assert_eq!(
        Psnr::new(&words(&["rsplit", "psnr", "a", "b"])).err(),
        Some("too less arguments for rsplit psnr mode")
    );
    assert_eq!(
        Psnr::new(&words(&["rsplit", "psnr", "a", "b", "1.5", "4x2"])).err(),
        Some("can't parse frame_num as usize")
    );
    assert_eq!(
        Psnr::new(&words(&["rsplit", "psnr", "a", "b", "3", "4x2", "2x2"])).err(),
        Some("too less arguments for rsplit psnr mode")
    );
    assert_eq!(
        Psnr::new(&words(&["rsplit", "psnr", "a", "b", "1", "4x2x1"])).err(),
        Some("invalid frame size")
    );
}

#[test]
fn usage_lines_name_the_mode() {
    assert_eq!(Bin::helper(), "Usage: rsplit bin input.bin output frame_num h264|h265");
    assert_eq!(Ivf::helper(), "Usage: rsplit ivf input.ivf output frame_num vp8|vp9");
    assert_eq!(Webm::helper(), "Usage: rsplit webm input.webm output.ivf frame_num vp8|vp9");
    assert_eq!(
        Yuv::helper(),
        "Usage: rsplit yuv input.yuv output_prefix frame_num frame_size1 [...|frame_size2 ...]"
    );
    assert_eq!(
        Psnr::helper(),
        "Usage: rsplit psnr input1.yuv input2.yuv frame_num frame_size1 [...|frame_size2 ...]"
    );
}
