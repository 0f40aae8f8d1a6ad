use rsplit::codec::{CodecProfile, NalClass};
use rsplit::cursor::ByteCursor;
use rsplit::scanner::{next_access_unit, probe_unit};
use rsplit::Bitstream;

fn nal(header: &[u8], payload: &[u8]) -> Vec<u8> {
    let mut unit = vec![0, 0, 1];
    unit.extend_from_slice(header);
    unit.extend_from_slice(payload);
    unit
}

fn join(units: &[Vec<u8>]) -> Vec<u8> {
    let mut stream = Vec::new();
    for unit in units {
        stream.extend_from_slice(unit);
    }
    stream
}

fn scan_all(stream: &[u8], codec: CodecProfile) -> Vec<Bitstream> {
    let mut cursor = ByteCursor::new(stream);
    let mut units = Vec::new();
    loop {
        let (au, end) = next_access_unit(&mut cursor, codec);
        units.push(au);
        if end {
            return units;
        }
    }
}

#[test]
fn h264_types_are_classified() {
    let c = CodecProfile::H264;
    assert_eq!(c.nal_header_length(), 1);
    assert_eq!(c.nal_type(0x65), 5);
    assert_eq!(c.nal_type(0x67), 7);
    assert_eq!(c.nal_type(0xff), 31);
    assert_eq!(c.classify(&[0x65]), NalClass::Vcl { refresh: true });
    assert_eq!(c.classify(&[0x41]), NalClass::Vcl { refresh: false });
    assert_eq!(c.classify(&[0x03]), NalClass::Vcl { refresh: false });
    assert_eq!(c.classify(&[0x00]), NalClass::Vcl { refresh: false });
    assert_eq!(c.classify(&[0x67]), NalClass::NonVcl);
    assert_eq!(c.classify(&[0x06]), NalClass::NonVcl);
    assert_eq!(c.classify(&[]), NalClass::NonVcl);
    assert!(c.probes_first_slice(1));
    assert!(c.probes_first_slice(2));
    assert!(c.probes_first_slice(5));
    assert!(!c.probes_first_slice(0));
    assert!(!c.probes_first_slice(3));
    assert!(!c.probes_first_slice(4));
    assert!(!c.probes_first_slice(6));
    assert!(c.holds_parameter_set(7));
    assert!(c.holds_parameter_set(8));
    assert!(!c.holds_parameter_set(6));
    assert!(!c.holds_parameter_set(32));
}

#[test]
fn h265_types_are_classified() {
    let c = CodecProfile::H265;
    assert_eq!(c.nal_header_length(), 2);
    assert_eq!(c.nal_type(0x26), 19);
    assert_eq!(c.nal_type(0x28), 20);
    assert_eq!(c.nal_type(0x40), 32);
    assert_eq!(c.nal_type(0x50), 40);
    assert_eq!(c.nal_type(0x02), 1);
    assert_eq!(c.nal_type(0x81), 0);
    assert_eq!(c.classify(&[0x26, 0x01]), NalClass::Vcl { refresh: true });
    assert_eq!(c.classify(&[0x28, 0x01]), NalClass::Vcl { refresh: true });
    assert_eq!(c.classify(&[0x02, 0x01]), NalClass::Vcl { refresh: false });
    assert_eq!(c.classify(&[0x2e, 0x01]), NalClass::Vcl { refresh: false });
    assert_eq!(c.classify(&[0x30, 0x01]), NalClass::NonVcl);
    assert_eq!(c.classify(&[0x40, 0x01]), NalClass::NonVcl);
    assert_eq!(c.classify(&[0x50, 0x01]), NalClass::SuffixNonVcl);
    assert_eq!(c.classify_type(40), NalClass::SuffixNonVcl);
    assert_eq!(c.classify_type(39), NalClass::NonVcl);
    assert!(c.probes_first_slice(0));
    assert!(c.probes_first_slice(23));
    assert!(!c.probes_first_slice(24));
    assert!(c.holds_parameter_set(32));
    assert!(c.holds_parameter_set(33));
    assert!(c.holds_parameter_set(34));
    assert!(!c.holds_parameter_set(35));
    assert!(!c.holds_parameter_set(7));
}

#[test]
fn first_slice_bit_is_the_high_bit() {
    assert!(rsplit::codec::read_first_slice_bit(0x80));
    assert!(rsplit::codec::read_first_slice_bit(0xff));
    assert!(!rsplit::codec::read_first_slice_bit(0x7f));
    assert!(!rsplit::codec::read_first_slice_bit(0x00));
}

#[test]
fn cursor_reads_and_rolls_back() {
    let data = [1u8, 2, 3];
    let mut cursor = ByteCursor::new(&data);
    assert_eq!(cursor.len(), 3);
    assert_eq!(cursor.read(), Some(1));
    assert_eq!(cursor.read(), Some(2));
    assert_eq!(cursor.pos(), 2);
    cursor.seek_back(2);
    assert_eq!(cursor.pos(), 0);
    assert_eq!(cursor.take(2), Some(&data[0..2]));
    assert_eq!(cursor.take(2), None);
    assert_eq!(cursor.pos(), 2);
    assert_eq!(cursor.read(), Some(3));
    assert_eq!(cursor.read(), None);
    assert_eq!(cursor.pos(), 3);
    cursor.set_position(1);
    assert_eq!(cursor.read(), Some(2));
    cursor.set_position(9);
    assert_eq!(cursor.pos(), 3);
}

#[test]
fn probe_reads_header_and_bit_then_rolls_back() {
    let data = [0u8, 0, 1, 0x65, 0x88, 0xaa];
    let mut cursor = ByteCursor::new(&data);
    cursor.set_position(3);
    assert_eq!(probe_unit(&mut cursor, CodecProfile::H264), Some((5, true)));
    assert_eq!(cursor.pos(), 3);
    let data = [0u8, 0, 1, 0x41, 0x40];
    let mut cursor = ByteCursor::new(&data);
    cursor.set_position(3);
    assert_eq!(probe_unit(&mut cursor, CodecProfile::H264), Some((1, false)));
    // a parameter set is not probed
    let data = [0u8, 0, 1, 0x67];
    let mut cursor = ByteCursor::new(&data);
    cursor.set_position(3);
    assert_eq!(probe_unit(&mut cursor, CodecProfile::H264), Some((7, false)));
    assert_eq!(cursor.pos(), 3);
    // the stream ends before the probed byte
    let data = [0u8, 0, 1, 0x65];
    let mut cursor = ByteCursor::new(&data);
    cursor.set_position(3);
    assert_eq!(probe_unit(&mut cursor, CodecProfile::H264), None);
    assert_eq!(cursor.pos(), 3);
    // H.265: two header bytes, then the probed byte
    let data = [0u8, 0, 1, 0x26, 0x01, 0x80];
    let mut cursor = ByteCursor::new(&data);
    cursor.set_position(3);
    assert_eq!(probe_unit(&mut cursor, CodecProfile::H265), Some((19, true)));
    assert_eq!(cursor.pos(), 3);
    let data = [0u8, 0, 1, 0x26, 0x01];
    let mut cursor = ByteCursor::new(&data);
    cursor.set_position(3);
    assert_eq!(probe_unit(&mut cursor, CodecProfile::H265), None);
    let data = [0u8, 0, 1, 0x40];
    let mut cursor = ByteCursor::new(&data);
    cursor.set_position(3);
    assert_eq!(probe_unit(&mut cursor, CodecProfile::H265), None);
    let data = [0u8, 0, 1, 0x40, 0x01];
    let mut cursor = ByteCursor::new(&data);
    cursor.set_position(3);
    assert_eq!(probe_unit(&mut cursor, CodecProfile::H265), Some((32, false)));
}

#[test]
fn empty_stream_gives_one_empty_unit() {
    let mut cursor = ByteCursor::new(&[]);
    let (au, end) = next_access_unit(&mut cursor, CodecProfile::H264);
    assert!(end);
    assert!(au.frame_data.is_empty());
    assert!(au.frame_header.is_empty());
    assert!(au.frame_location.is_empty());
    assert!(!au.idr_flag);
    assert_eq!(cursor.pos(), 0);
}

#[test]
fn two_pictures_are_cut_at_the_second_first_slice() {
    let idr = nal(&[0x65], &[0x88, 0xaa, 0xbb]);
    let p = nal(&[0x41], &[0x9a, 0xcc]);
    let stream = join(&[idr.clone(), p.clone()]);
    let mut cursor = ByteCursor::new(&stream);
    let (first, end) = next_access_unit(&mut cursor, CodecProfile::H264);
    assert!(!end);
    assert_eq!(first.frame_data, idr);
    assert_eq!(first.frame_header, vec![5]);
    assert_eq!(first.frame_location, vec![0]);
    assert!(first.idr_flag);
    assert_eq!(cursor.pos(), idr.len());
    let (second, end) = next_access_unit(&mut cursor, CodecProfile::H264);
    assert!(end);
    assert_eq!(second.frame_data, p);
    assert_eq!(second.frame_header, vec![1]);
    assert_eq!(second.frame_location, vec![0]);
    assert!(!second.idr_flag);
    assert_eq!(cursor.pos(), stream.len());
}

#[test]
fn leading_units_go_to_the_picture_that_follows() {
    // slice, then SPS and PPS, then the first slice of the next picture:
    // the parameter sets belong to the second picture.
    let one = nal(&[0x41], &[0x9a, 0x11]);
    let sps = nal(&[0x67], &[0x42, 0x43]);
    let pps = nal(&[0x68], &[0x44]);
    let two = nal(&[0x65], &[0x88, 0x22]);
    let stream = join(&[one.clone(), sps.clone(), pps.clone(), two.clone()]);
    let mut cursor = ByteCursor::new(&stream);
    let (first, end) = next_access_unit(&mut cursor, CodecProfile::H264);
    assert!(!end);
    assert_eq!(first.frame_data, one);
    assert_eq!(first.frame_header, vec![1]);
    assert!(!first.idr_flag);
    // the cursor went back over the probed header and both leading units
    assert_eq!(cursor.pos(), one.len());
    let (second, end) = next_access_unit(&mut cursor, CodecProfile::H264);
    assert!(end);
    assert_eq!(second.frame_data, join(&[sps.clone(), pps.clone(), two.clone()]));
    assert_eq!(second.frame_header, vec![7, 8, 5]);
    assert_eq!(second.frame_location, vec![0, sps.len(), sps.len() + pps.len()]);
    assert!(second.idr_flag);
}

#[test]
fn suffix_unit_stays_with_the_picture_before() {
    // H.265: slice, suffix SEI (type 40), first slice of the next picture
    let one = nal(&[0x02, 0x01], &[0x80, 0x11]);
    let suffix = nal(&[0x50, 0x01], &[0x33]);
    let two = nal(&[0x26, 0x01], &[0x80, 0x22]);
    let stream = join(&[one.clone(), suffix.clone(), two.clone()]);
    let units = scan_all(&stream, CodecProfile::H265);
    assert_eq!(units.len(), 2);
    assert_eq!(units[0].frame_data, join(&[one.clone(), suffix.clone()]));
    assert_eq!(units[0].frame_header, vec![1, 40]);
    assert_eq!(units[0].frame_location, vec![0, one.len()]);
    assert!(!units[0].idr_flag);
    assert_eq!(units[1].frame_data, two);
    assert_eq!(units[1].frame_header, vec![19]);
    assert!(units[1].idr_flag);
}

#[test]
fn prefix_unit_after_a_suffix_unit_leads_the_next_picture() {
    // H.265: slice, prefix SEI (39), suffix SEI (40), VPS (32), first slice
    let one = nal(&[0x02, 0x01], &[0x80, 0x11]);
    let prefix = nal(&[0x4e, 0x01], &[0x31]);
    let suffix = nal(&[0x50, 0x01], &[0x33]);
    let vps = nal(&[0x40, 0x01], &[0x35]);
    let two = nal(&[0x28, 0x01], &[0x80, 0x22]);
    let stream = join(&[one.clone(), prefix.clone(), suffix.clone(), vps.clone(), two.clone()]);
    let units = scan_all(&stream, CodecProfile::H265);
    assert_eq!(units.len(), 2);
    assert_eq!(units[0].frame_data, join(&[one, prefix, suffix]));
    assert_eq!(units[0].frame_header, vec![1, 39, 40]);
    assert_eq!(units[1].frame_data, join(&[vps, two]));
    assert_eq!(units[1].frame_header, vec![32, 20]);
    assert!(units[1].idr_flag);
}

#[test]
fn slice_without_first_slice_bit_never_closes_a_picture() {
    let first = nal(&[0x65], &[0x88, 0x11]);
    let more = nal(&[0x65], &[0x08, 0x12]);
    let part = nal(&[0x03], &[0xff, 0x13]);
    let stream = join(&[first, more, part]);
    let units = scan_all(&stream, CodecProfile::H264);
    assert_eq!(units.len(), 1);
    assert_eq!(units[0].frame_data, stream);
    assert_eq!(units[0].frame_header, vec![5, 5, 3]);
    assert!(units[0].idr_flag);
}

#[test]
fn unprobed_slice_types_do_not_open_a_picture() {
    // types 3 and 4 are slices but their first-slice bit is never read
    let a = nal(&[0x03], &[0x80, 0x11]);
    let b = nal(&[0x04], &[0x80, 0x12]);
    let stream = join(&[a, b]);
    let units = scan_all(&stream, CodecProfile::H264);
    assert_eq!(units.len(), 1);
    assert_eq!(units[0].frame_header, vec![3, 4]);
    assert!(!units[0].idr_flag);
}

#[test]
fn slice_between_leading_units_resets_the_run() {
    // SEI, continuing slice, SEI, first slice: only the second SEI leads
    let open = nal(&[0x41], &[0x9a, 0x11]);
    let sei1 = nal(&[0x06], &[0x21]);
    let cont = nal(&[0x41], &[0x1a, 0x12]);
    let sei2 = nal(&[0x06], &[0x22]);
    let next = nal(&[0x41], &[0x9a, 0x13]);
    let stream = join(&[open.clone(), sei1.clone(), cont.clone(), sei2.clone(), next.clone()]);
    let units = scan_all(&stream, CodecProfile::H264);
    assert_eq!(units.len(), 2);
    assert_eq!(units[0].frame_data, join(&[open, sei1, cont]));
    assert_eq!(units[0].frame_header, vec![1, 6, 1]);
    assert_eq!(units[1].frame_data, join(&[sei2, next]));
    assert_eq!(units[1].frame_header, vec![6, 1]);
}

#[test]
fn one_zero_before_the_one_is_no_start_code() {
    let first = nal(&[0x65], &[0x88, 0x00, 0x01, 0x41, 0x9a]);
    let units = scan_all(&first, CodecProfile::H264);
    assert_eq!(units.len(), 1);
    assert_eq!(units[0].frame_header, vec![5]);
    assert_eq!(units[0].frame_data, first);
}

#[test]
fn other_byte_resets_the_zero_count() {
    // 00 00 02 01 holds no start code
    let stream = vec![0u8, 0, 1, 0x65, 0x88, 0, 0, 2, 1, 0x41, 0x9a];
    let units = scan_all(&stream, CodecProfile::H264);
    assert_eq!(units.len(), 1);
    assert_eq!(units[0].frame_header, vec![5]);
}

#[test]
fn longer_zero_run_belongs_to_the_unit_it_precedes() {
    // four-byte start codes: the picture ends before the first zero
    let mut stream = vec![0u8, 0, 0, 1, 0x65, 0x88, 0xaa];
    stream.extend_from_slice(&[0, 0, 0, 1, 0x41, 0x9a, 0xbb]);
    let mut cursor = ByteCursor::new(&stream);
    let (first, end) = next_access_unit(&mut cursor, CodecProfile::H264);
    assert!(!end);
    assert_eq!(first.frame_data, vec![0u8, 0, 0, 1, 0x65, 0x88, 0xaa]);
    assert_eq!(first.frame_location, vec![0]);
    assert_eq!(cursor.pos(), 7);
    let (second, end) = next_access_unit(&mut cursor, CodecProfile::H264);
    assert!(end);
    assert_eq!(second.frame_data, vec![0u8, 0, 0, 1, 0x41, 0x9a, 0xbb]);
    assert_eq!(second.frame_location, vec![0]);
}

#[test]
fn bytes_before_the_first_start_code_stay_in_the_first_unit() {
    let mut stream = vec![0x12u8, 0x34];
    stream.extend_from_slice(&nal(&[0x67], &[0x42]));
    stream.extend_from_slice(&nal(&[0x65], &[0x88]));
    let units = scan_all(&stream, CodecProfile::H264);
    assert_eq!(units.len(), 1);
    assert_eq!(units[0].frame_data, stream);
    assert_eq!(units[0].frame_header, vec![7, 5]);
    assert_eq!(units[0].frame_location, vec![2, 7]);
    assert!(units[0].idr_flag);
}

#[test]
fn stream_that_ends_in_a_header_keeps_every_byte() {
    // the last start code has no header byte
    let mut stream = nal(&[0x65], &[0x88, 0xaa]);
    stream.extend_from_slice(&[0, 0, 1]);
    let units = scan_all(&stream, CodecProfile::H264);
    assert_eq!(units.len(), 1);
    assert_eq!(units[0].frame_data, stream);
    assert_eq!(units[0].frame_header, vec![5]);
    // the last slice has its header but not the probed byte
    let mut stream = nal(&[0x65], &[0x88, 0xaa]);
    stream.extend_from_slice(&[0, 0, 1, 0x41]);
    let units = scan_all(&stream, CodecProfile::H264);
    assert_eq!(units.len(), 1);
    assert_eq!(units[0].frame_data, stream);
    assert_eq!(units[0].frame_header, vec![5]);
    assert!(units[0].idr_flag);
    // with the probed byte it is the next picture
    let mut stream = nal(&[0x65], &[0x88, 0xaa]);
    stream.extend_from_slice(&[0, 0, 1, 0x41, 0x80]);
    let units = scan_all(&stream, CodecProfile::H264);
    assert_eq!(units.len(), 2);
    assert_eq!(units[1].frame_data, vec![0u8, 0, 1, 0x41, 0x80]);
}

#[test]
fn refresh_flag_comes_from_the_opening_slice() {
    let stream = join(&[nal(&[0x41], &[0x9a]), nal(&[0x65], &[0x08])]);
    let units = scan_all(&stream, CodecProfile::H264);
    assert_eq!(units.len(), 1);
    assert_eq!(units[0].frame_header, vec![1, 5]);
    assert!(!units[0].idr_flag);
}

#[test]
fn scanned_units_put_the_stream_back_together() {
    let stream = join(&[
        nal(&[0x67], &[0x42, 0x00, 0x1e]),
        nal(&[0x68], &[0xce]),
        nal(&[0x65], &[0x88, 0x84, 0x00]),
        nal(&[0x41], &[0x9a, 0x01]),
        nal(&[0x06], &[0x05]),
        nal(&[0x41], &[0x9a, 0x02]),
        nal(&[0x67], &[0x42]),
        nal(&[0x65], &[0x88, 0x03]),
    ]);
    let units = scan_all(&stream, CodecProfile::H264);
    assert_eq!(units.len(), 4);
    let mut all = Vec::new();
    for unit in &units {
        all.extend_from_slice(&unit.frame_data);
    }
    assert_eq!(all, stream);
    let flags: Vec<bool> = units.iter().map(|u| u.idr_flag).collect();
    assert_eq!(flags, vec![true, false, false, true]);
    assert_eq!(units[0].frame_header, vec![7, 8, 5]);
    assert_eq!(units[1].frame_header, vec![1]);
    assert_eq!(units[2].frame_header, vec![6, 1]);
    assert_eq!(units[3].frame_header, vec![7, 5]);
}

#[test]
fn rescanning_a_run_of_pictures_finds_the_same_boundaries() {
    let pictures = vec![
        join(&[nal(&[0x67], &[0x42]), nal(&[0x65], &[0x88, 0x01])]),
        nal(&[0x41], &[0x9a, 0x02]),
        join(&[nal(&[0x06], &[0x05]), nal(&[0x41], &[0x9a, 0x03])]),
        join(&[nal(&[0x67], &[0x42]), nal(&[0x65], &[0x88, 0x04])]),
        nal(&[0x41], &[0x9a, 0x05]),
    ];
    let stream = join(&pictures);
    let units = scan_all(&stream, CodecProfile::H264);
    assert_eq!(units.len(), 5);
    for (unit, picture) in units.iter().zip(pictures.iter()) {
        assert_eq!(&unit.frame_data, picture);
    }
    // the run of pictures 1 to 3, scanned on its own
    let part = join(&pictures[1..4]);
    let again = scan_all(&part, CodecProfile::H264);
    assert_eq!(again.len(), 3);
    for (unit, picture) in again.iter().zip(pictures[1..4].iter()) {
        assert_eq!(&unit.frame_data, picture);
    }
    for (unit, first) in again.iter().zip(units[1..4].iter()) {
        assert_eq!(unit.idr_flag, first.idr_flag);
        assert_eq!(unit.frame_header, first.frame_header);
        assert_eq!(unit.frame_location, first.frame_location);
    }
}

#[test]
fn rescanning_keeps_bytes_and_flags_where_a_header_reaches_into_the_next_picture() {
    // a start code directly before the zero bytes of the next picture: its
    // header byte is the first of those zeros
    let mut stream = vec![0u8, 0, 1, 0x65, 0x88, 0xaa, 0, 0, 1];
    stream.extend_from_slice(&[0, 0, 1, 0x41, 0x9a, 0xbb]);
    let units = scan_all(&stream, CodecProfile::H264);
    assert_eq!(units.len(), 2);
    assert_eq!(units[0].frame_data, vec![0u8, 0, 1, 0x65, 0x88, 0xaa, 0, 0, 1]);
    assert_eq!(units[0].frame_header, vec![5, 0]);
    assert!(units[0].idr_flag);
    let again = scan_all(&units[0].frame_data, CodecProfile::H264);
    assert_eq!(again.len(), 1);
    assert_eq!(again[0].frame_data, units[0].frame_data);
    assert_eq!(again[0].idr_flag, units[0].idr_flag);
    // scanned on its own, the picture ends inside the header of that unit
    assert_eq!(again[0].frame_header, vec![5]);
}
