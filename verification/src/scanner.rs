//! The access-unit scanner: reads a stream byte by byte, finds the NAL
//! units by their start codes and hands out one picture per call.
//!
//! The first slice of the next picture is known only once its header has
//! been read. The scanner then rolls the cursor back over that header and
//! over the units that lead the next picture, so that the next call meets
//! them again.

use vstd::prelude::*;
use crate::codec::{CodecProfile, NalClass, first_slice_bit, read_first_slice_bit};
use crate::cursor::ByteCursor;
use crate::scan::{
    access_unit, cut_before, first_slice_at, follower, is_last_picture, leading_run,
    lemma_scan_cuts, lemma_scan_ends, lemma_scan_step, next_first_slice, opener, picture_end,
    picture_is_refresh, unit_at, unit_offsets, unit_types, zero_run_start,
};
use crate::Bitstream;

verus! {

/// Reads the header of the unit whose start code ends just before the
/// cursor, and the byte with its first-slice bit where the type is probed,
/// then rolls the cursor back over what was read. Gives the unit's type
/// code and whether it is a first slice; `None` where the stream ends
/// before the last of these bytes.
pub fn probe_unit(cursor: &mut ByteCursor, codec: CodecProfile) -> (head: Option<(u8, bool)>)
    ensures
        final(cursor).stream() == old(cursor).stream(),
        final(cursor).position() == old(cursor).position(),
        ({
            let s = old(cursor).stream();
            let p = old(cursor).position();
            match head {
                Some((nal_type, first_slice)) => {
                    &&& p < s.len()
                    &&& nal_type == codec.type_of(s[p])
                    &&& p - 1 + codec.span_of(nal_type) < s.len()
                    &&& first_slice == (codec.is_probed(nal_type) && first_slice_bit(
                        s[p + codec.header_len()],
                    ))
                },
                None => p >= s.len() || p - 1 + codec.span_of(codec.type_of(s[p])) >= s.len(),
            }
        }),
{
    let ghost s = cursor.stream();
    let ghost p = cursor.position();
    let first = match cursor.read() {
        Some(byte) => byte,
        None => {
            return None;
        },
    };
    let nal_type = codec.nal_type(first);
    let probed = codec.probes_first_slice(nal_type);
    let span: usize = if probed {
        codec.nal_header_length() + 1
    } else {
        codec.nal_header_length()
    };
    let mut read: usize = 1;
    let mut last = first;
    while read < span
        invariant
            s == old(cursor).stream(),
            p == old(cursor).position(),
            0 <= p < s.len(),
            span == codec.span_of(nal_type),
            nal_type == codec.type_of(s[p]),
            1 <= read <= span <= 3,
            cursor.stream() == s,
            cursor.position() == p + read,
            p + read <= s.len(),
            last == s[p + read - 1],
        decreases span - read,
    {
        match cursor.read() {
            Some(byte) => {
                last = byte;
                read = read + 1;
            },
            None => {
                cursor.seek_back(read);
                return None;
            },
        }
    }
    cursor.seek_back(read);
    let first_slice = probed && read_first_slice_bit(last);
    Some((nal_type, first_slice))
}

/// Scans one access unit from the cursor's position.
///
/// Returns the access unit and whether the end of the stream was reached.
/// Where it was not, the cursor stands at the first byte of the next
/// picture: at the first zero byte of the start code of the first unit that
/// leads it. At the end of the stream the access unit holds every byte that
/// was left.
pub fn next_access_unit(cursor: &mut ByteCursor, codec: CodecProfile) -> (out: (Bitstream, bool))
    ensures
        final(cursor).stream() == old(cursor).stream(),
        final(cursor).position() == picture_end(
            codec,
            old(cursor).stream(),
            old(cursor).position(),
        ),
        out.0@ == access_unit(codec, old(cursor).stream(), old(cursor).position()),
        out.1 == is_last_picture(codec, old(cursor).stream(), old(cursor).position()),
        out.0@.wf(),
{
    let ghost s = cursor.stream();
    let begin: usize = cursor.pos();
    let ghost lo = begin as int;
    let mut headers: Vec<u8> = Vec::new();
    let mut locations: Vec<usize> = Vec::new();
    let mut data: Vec<u8> = Vec::new();
    let mut zeros: usize = 0;
    let mut opened = false;
    let mut idr_flag = false;
    // Bytes and units read since the last slice or suffix unit: they lead
    // the next picture if a first slice follows them.
    let mut trailing_bytes: usize = 0;
    let mut trailing_units: usize = 0;
    loop
        invariant
            s == old(cursor).stream(),
            lo == old(cursor).position(),
            cursor.stream() == s,
            0 <= lo <= cursor.position() <= s.len(),
            data@ == s.subrange(lo, cursor.position()),
            headers@.len() <= cursor.position() - lo,
            zeros == cursor.position() - zero_run_start(s, lo, cursor.position()),
            headers@ == unit_types(codec, s, lo, cursor.position()),
            locations@ == unit_offsets(codec, s, lo, cursor.position()),
            !opened ==> next_first_slice(codec, s, lo, lo) == next_first_slice(
                codec,
                s,
                lo,
                cursor.position(),
            ),
            opened ==> {
                &&& opener(codec, s, lo) < cursor.position()
                &&& idr_flag == picture_is_refresh(codec, s, lo)
                &&& follower(codec, s, lo) == next_first_slice(codec, s, lo, cursor.position())
            },
            !opened ==> !idr_flag,
            trailing_units == 0 <==> leading_run(codec, s, lo, cursor.position()).is_none(),
            trailing_units == 0 ==> trailing_bytes == 0,
            trailing_bytes <= data@.len(),
            zeros <= data@.len(),
            trailing_units > 0 ==> {
                let u = leading_run(codec, s, lo, cursor.position())->0;
                &&& lo <= u < cursor.position()
                &&& trailing_bytes == cursor.position() - zero_run_start(s, lo, u)
                &&& trailing_units <= headers@.len()
                &&& headers@.len() - trailing_units == unit_types(codec, s, lo, u).len()
            },
        decreases s.len() - cursor.position(),
    {
        let ghost pos = cursor.position();
        let byte = match cursor.read() {
            Some(byte) => byte,
            None => {
                proof {
                    lemma_scan_ends(codec, s, lo, opened);
                }
                return (
                    Bitstream {
                        frame_header: headers,
                        frame_location: locations,
                        frame_data: data,
                        idr_flag,
                    },
                    true,
                );
            },
        };
        data.push(byte);
        if trailing_units > 0 {
            trailing_bytes = trailing_bytes + 1;
        }
        proof {
            lemma_scan_step(codec, s, lo, pos);
            assert(data@ == s.subrange(lo, pos + 1));
        }
        if byte == 0 {
            zeros = zeros + 1;
        } else if byte == 1 && zeros >= 2 {
            // A start code ends here; the unit begins at the first of its
            // zero bytes.
            let unit_start: usize = data.len() - zeros - 1;
            let code_len: usize = zeros + 1;
            zeros = 0;
            match probe_unit(cursor, codec) {
                Some((nal_type, first_slice)) => {
                    assert(unit_at(codec, s, lo, pos));
                    assert(first_slice == first_slice_at(codec, s, lo, pos));
                    if first_slice && opened {
                        // The first slice of the next picture. Undo the
                        // over-read: this start code and the units that
                        // lead the next picture stay in the stream.
                        let excluded: usize = if trailing_units > 0 {
                            trailing_bytes
                        } else {
                            code_len
                        };
                        let ghost end = cut_before(codec, s, lo, pos);
                        proof {
                            lemma_scan_cuts(codec, s, lo, pos);
                            assert(end == pos + 1 - excluded);
                        }
                        cursor.seek_back(excluded);
                        data.truncate(data.len() - excluded);
                        headers.truncate(headers.len() - trailing_units);
                        locations.truncate(locations.len() - trailing_units);
                        proof {
                            assert(data@ == s.subrange(lo, end));
                            assert(headers@ == unit_types(codec, s, lo, end));
                            assert(locations@ == unit_offsets(codec, s, lo, end));
                        }
                        return (
                            Bitstream {
                                frame_header: headers,
                                frame_location: locations,
                                frame_data: data,
                                idr_flag,
                            },
                            false,
                        );
                    }
                    let class = codec.classify_type(nal_type);
                    if first_slice {
                        opened = true;
                        idr_flag = match class {
                            NalClass::Vcl { refresh } => refresh,
                            _ => false,
                        };
                    }
                    headers.push(nal_type);
                    locations.push(unit_start);
                    match class {
                        NalClass::NonVcl => {
                            if trailing_units == 0 {
                                trailing_bytes = code_len;
                            }
                            trailing_units = trailing_units + 1;
                        },
                        _ => {
                            trailing_units = 0;
                            trailing_bytes = 0;
                        },
                    }
                },
                None => {
                    // The stream ends inside this unit's header: the bytes
                    // that are left belong to the picture being read.
                    assert(!unit_at(codec, s, lo, pos));
                },
            }
        } else {
            zeros = 0;
        }
    }
}

} // verus!
