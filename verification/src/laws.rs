//! What holds of every split: the segments put the stream back together,
//! each begins with a refresh picture, and none but the last is shorter
//! than the minimum.

use vstd::prelude::*;
use crate::codec::{CodecProfile, NalClass};
use crate::scan::{
    access_unit, follower, is_last_picture, leading_run, lemma_leading_run,
    lemma_next_first_slice, lemma_picture_advances, lemma_pictures_nonempty,
    lemma_start_code_zeros, lemma_zero_run, opener, picture_end, pictures, unit_at, unit_types,
    zero_run_start,
};
use crate::segment::{concat_data, cuts_at, segment_of, segments, segments_from, SegmentView};
use crate::BitstreamView;

verus! {

/// The access-unit sections of the segments, one after the other.
pub open spec fn concat_payloads(parts: Seq<SegmentView>) -> Seq<u8>
    decreases parts.len(),
{
    if parts.len() == 0 {
        Seq::empty()
    } else {
        parts.first().payload() + concat_payloads(parts.drop_first())
    }
}

/// Joining two runs of access units joins their bytes.
pub proof fn lemma_concat_data_append(a: Seq<BitstreamView>, b: Seq<BitstreamView>)
    ensures
        concat_data(a + b) == concat_data(a) + concat_data(b),
    decreases b.len(),
{
    if b.len() == 0 {
        assert(a + b == a);
    } else {
        lemma_concat_data_append(a, b.drop_last());
        assert((a + b).drop_last() == a + b.drop_last());
        assert((a + b).last() == b.last());
    }
}

/// The access units scanned from `lo` hold the stream from `lo` to its
/// end, byte for byte.
pub proof fn lemma_pictures_cover_stream(c: CodecProfile, s: Seq<u8>, lo: int)
    requires
        0 <= lo <= s.len(),
    ensures
        concat_data(pictures(c, s, lo)) == s.subrange(lo, s.len() as int),
    decreases s.len() - lo,
{
    let unit = access_unit(c, s, lo);
    let one = seq![unit];
    assert(one.drop_last() == Seq::<BitstreamView>::empty());
    assert(concat_data(one.drop_last()) == Seq::<u8>::empty());
    assert(concat_data(one) == unit.frame_data);
    if !is_last_picture(c, s, lo) {
        let end = picture_end(c, s, lo);
        lemma_picture_advances(c, s, lo);
        lemma_pictures_cover_stream(c, s, end);
        lemma_concat_data_append(one, pictures(c, s, end));
        assert(s.subrange(lo, end) + s.subrange(end, s.len() as int) == s.subrange(
            lo,
            s.len() as int,
        ));
    }
}

/// The segments still to come at picture `k` are at least one, and the
/// first of them begins where the pending run began.
pub proof fn lemma_segments_first(
    c: CodecProfile,
    pictures: Seq<BitstreamView>,
    min: int,
    run_start: int,
    k: int,
)
    requires
        0 <= run_start <= k <= pictures.len(),
        run_start < pictures.len(),
    ensures
        segments_from(c, pictures, min, run_start, k).len() >= 1,
        segments_from(c, pictures, min, run_start, k)[0].first == run_start,
    decreases pictures.len() - k,
{
    if k < pictures.len() && !cuts_at(pictures, min, run_start, k) {
        lemma_segments_first(c, pictures, min, run_start, k + 1);
    }
}

/// The `i`-th of the segments still to come at picture `k`: it holds the
/// pictures of its range, which follows the range before it without a
/// gap; unless it is the first it begins with a refresh picture; unless
/// it is the last it holds more than `min` pictures.
pub proof fn lemma_segment_at(
    c: CodecProfile,
    pictures: Seq<BitstreamView>,
    min: int,
    run_start: int,
    k: int,
    i: int,
)
    requires
        0 <= run_start <= k <= pictures.len(),
        run_start < pictures.len(),
        0 <= i < segments_from(c, pictures, min, run_start, k).len(),
    ensures
        ({
            let parts = segments_from(c, pictures, min, run_start, k);
            let part = parts[i];
            &&& run_start <= part.first <= part.last < pictures.len()
            &&& part == segment_of(c, pictures, part.first, part.last)
            &&& i == 0 ==> part.first == run_start
            &&& i >= 1 ==> {
                &&& k <= part.first
                &&& pictures[part.first].idr_flag
                &&& part.first == parts[i - 1].last + 1
            }
            &&& i == parts.len() - 1 ==> part.last == pictures.len() - 1
            &&& i < parts.len() - 1 ==> {
                &&& part.last - part.first + 1 > min
                &&& k <= part.last + 1 < pictures.len()
            }
        }),
    decreases pictures.len() - k,
{
    let n = pictures.len() as int;
    let parts = segments_from(c, pictures, min, run_start, k);
    if k >= n {
    } else if cuts_at(pictures, min, run_start, k) {
        let head = segment_of(c, pictures, run_start, k - 1);
        let rest = segments_from(c, pictures, min, k, k + 1);
        assert(parts == seq![head] + rest);
        lemma_segments_first(c, pictures, min, k, k + 1);
        if i >= 1 {
            assert(parts[i] == rest[i - 1]);
            lemma_segment_at(c, pictures, min, k, k + 1, i - 1);
            if i >= 2 {
                assert(parts[i - 1] == rest[i - 2]);
            } else {
                assert(parts[i - 1] == head);
            }
        } else {
            assert(parts[0] == head);
        }
    } else {
        lemma_segment_at(c, pictures, min, run_start, k + 1, i);
    }
}

/// The segments still to come at picture `k` hold, one after the other,
/// the bytes of the pictures from `run_start` on.
pub proof fn lemma_segments_payload(
    c: CodecProfile,
    pictures: Seq<BitstreamView>,
    min: int,
    run_start: int,
    k: int,
)
    requires
        0 <= run_start <= k <= pictures.len(),
        run_start < pictures.len(),
    ensures
        concat_payloads(segments_from(c, pictures, min, run_start, k)) == concat_data(
            pictures.subrange(run_start, pictures.len() as int),
        ),
    decreases pictures.len() - k,
{
    let n = pictures.len() as int;
    let parts = segments_from(c, pictures, min, run_start, k);
    if k >= n {
        let only = segment_of(c, pictures, run_start, n - 1);
        assert(parts == seq![only]);
        assert(parts.drop_first() == Seq::<SegmentView>::empty());
        assert(concat_payloads(parts.drop_first()) == Seq::<u8>::empty());
        assert(concat_payloads(parts) == only.payload() + Seq::<u8>::empty());
    } else if cuts_at(pictures, min, run_start, k) {
        let head = segment_of(c, pictures, run_start, k - 1);
        let rest = segments_from(c, pictures, min, k, k + 1);
        lemma_segments_payload(c, pictures, min, k, k + 1);
        assert(parts == seq![head] + rest);
        assert(parts.first() == head);
        assert(parts.drop_first() == rest);
        lemma_concat_data_append(pictures.subrange(run_start, k), pictures.subrange(k, n));
        assert(pictures.subrange(run_start, k) + pictures.subrange(k, n) == pictures.subrange(
            run_start,
            n,
        ));
    } else {
        lemma_segments_payload(c, pictures, min, run_start, k + 1);
    }
}

/// Concatenating the access-unit sections of the output files, in the
/// order of their picture ranges, gives back the input stream byte for
/// byte. Where the first file has no parameter sets before its access
/// units, the same holds with the whole of the first file.
pub proof fn lemma_segments_rebuild_stream(c: CodecProfile, s: Seq<u8>, min: int)
    ensures
        concat_payloads(segments(c, pictures(c, s, 0), min)) == s,
        segments(c, pictures(c, s, 0), min).len() >= 1,
        segments(c, pictures(c, s, 0), min)[0].parameter_sets.len() == 0 ==> segments(
            c,
            pictures(c, s, 0),
            min,
        )[0].bytes() + concat_payloads(segments(c, pictures(c, s, 0), min).drop_first()) == s,
{
    let all = pictures(c, s, 0);
    lemma_pictures_nonempty(c, s, 0);
    lemma_segments_first(c, all, min, 0, 0);
    lemma_segments_payload(c, all, min, 0, 0);
    lemma_pictures_cover_stream(c, s, 0);
    assert(all.subrange(0, all.len() as int) == all);
    assert(s.subrange(0, s.len() as int) == s);
    let parts = segments(c, all, min);
    if parts[0].parameter_sets.len() == 0 {
        assert(parts[0].bytes() == parts[0].payload());
    }
}

/// Every output file but the first begins with a refresh picture.
pub proof fn lemma_segments_begin_with_refresh(
    c: CodecProfile,
    pictures: Seq<BitstreamView>,
    min: int,
    i: int,
)
    requires
        1 <= i < segments(c, pictures, min).len(),
    ensures
        segments(c, pictures, min)[i].units.len() >= 1,
        segments(c, pictures, min)[i].units[0].idr_flag,
        segments(c, pictures, min)[i].units[0] == pictures[segments(c, pictures, min)[i].first],
{
    if pictures.len() > 0 {
        lemma_segment_at(c, pictures, min, 0, 0, i);
    }
}

/// The first output file begins with the first picture of the stream: it
/// begins with a refresh picture exactly if the stream does.
pub proof fn lemma_first_segment_begins_stream(
    c: CodecProfile,
    pictures: Seq<BitstreamView>,
    min: int,
)
    requires
        pictures.len() >= 1,
    ensures
        segments(c, pictures, min).len() >= 1,
        segments(c, pictures, min)[0].first == 0,
        segments(c, pictures, min)[0].units.len() >= 1,
        segments(c, pictures, min)[0].units[0] == pictures[0],
{
    lemma_segments_first(c, pictures, min, 0, 0);
    lemma_segment_at(c, pictures, min, 0, 0, 0);
}

/// Every output file but the last holds at least the minimum number of
/// pictures, and one more; each file holds as many pictures as its index
/// range says.
pub proof fn lemma_segments_reach_minimum(
    c: CodecProfile,
    pictures: Seq<BitstreamView>,
    min: int,
    i: int,
)
    requires
        0 <= i < segments(c, pictures, min).len(),
    ensures
        segments(c, pictures, min)[i].units.len() == segments(c, pictures, min)[i].last
            - segments(c, pictures, min)[i].first + 1,
        i < segments(c, pictures, min).len() - 1 ==> segments(c, pictures, min)[i].last
            - segments(c, pictures, min)[i].first + 1 >= min,
        i < segments(c, pictures, min).len() - 1 ==> segments(c, pictures, min)[i].last
            - segments(c, pictures, min)[i].first + 1 > min,
{
    if pictures.len() > 0 {
        lemma_segment_at(c, pictures, min, 0, 0, i);
    }
}

/// A stream without a refresh picture yields exactly one output file,
/// which holds all its pictures and all its parameter sets: the one that
/// is written when the stream has ended.
pub proof fn lemma_no_refresh_one_segment(c: CodecProfile, pictures: Seq<BitstreamView>, min: int)
    requires
        pictures.len() >= 1,
        forall|k: int| 0 <= k < pictures.len() ==> !(#[trigger] pictures[k]).idr_flag,
    ensures
        segments(c, pictures, min) == seq![segment_of(c, pictures, 0, pictures.len() - 1)],
{
    lemma_segments_first(c, pictures, min, 0, 0);
    let parts = segments(c, pictures, min);
    if parts.len() > 1 {
        lemma_segment_at(c, pictures, min, 0, 0, 1);
    }
    lemma_segment_at(c, pictures, min, 0, 0, 0);
    assert(parts == seq![segment_of(c, pictures, 0, pictures.len() - 1)]);
}

/// Among the segments still to come at picture `k`, the `i`-th ends
/// before a refresh picture `b` that lies more than `min` pictures after
/// its first picture.
proof fn lemma_segment_ends_before(
    c: CodecProfile,
    pictures: Seq<BitstreamView>,
    min: int,
    run_start: int,
    k: int,
    i: int,
    b: int,
)
    requires
        0 <= run_start <= k <= pictures.len(),
        run_start < pictures.len(),
        0 <= i < segments_from(c, pictures, min, run_start, k).len(),
        segments_from(c, pictures, min, run_start, k)[i].first < b < pictures.len(),
        pictures[b].idr_flag,
        b - segments_from(c, pictures, min, run_start, k)[i].first > min,
        i == 0 ==> k <= b,
    ensures
        segments_from(c, pictures, min, run_start, k)[i].last < b,
    decreases pictures.len() - k,
{
    let parts = segments_from(c, pictures, min, run_start, k);
    lemma_segments_first(c, pictures, min, run_start, k);
    if k >= pictures.len() {
    } else if cuts_at(pictures, min, run_start, k) {
        let head = segment_of(c, pictures, run_start, k - 1);
        let rest = segments_from(c, pictures, min, k, k + 1);
        assert(parts == seq![head] + rest);
        if i >= 1 {
            assert(parts[i] == rest[i - 1]);
            lemma_segments_first(c, pictures, min, k, k + 1);
            lemma_segment_ends_before(c, pictures, min, k, k + 1, i - 1, b);
        } else {
            assert(parts[0] == head);
        }
    } else {
        lemma_segment_ends_before(c, pictures, min, run_start, k + 1, i, b);
    }
}

/// A refresh picture reached after the run has passed the minimum always
/// begins a new output file: a file that begins with picture `a` ends
/// before every refresh picture `b` with `b - a` above the minimum.
pub proof fn lemma_refresh_after_minimum_cuts(
    c: CodecProfile,
    pictures: Seq<BitstreamView>,
    min: int,
    i: int,
    b: int,
)
    requires
        0 <= i < segments(c, pictures, min).len(),
        segments(c, pictures, min)[i].first < b < pictures.len(),
        pictures[b].idr_flag,
        b - segments(c, pictures, min)[i].first > min,
    ensures
        segments(c, pictures, min)[i].last < b,
{
    lemma_segment_at(c, pictures, min, 0, 0, i);
    lemma_segment_ends_before(c, pictures, min, 0, 0, i, b);
}

/// A file ends only before a refresh picture that lies more than `min`
/// pictures after the first picture of the file.
pub proof fn lemma_cut_only_at_spaced_refresh(
    c: CodecProfile,
    pictures: Seq<BitstreamView>,
    min: int,
    i: int,
)
    requires
        0 <= i < segments(c, pictures, min).len() - 1,
    ensures
        pictures[segments(c, pictures, min)[i].last + 1].idr_flag,
        segments(c, pictures, min)[i].last + 1 - segments(c, pictures, min)[i].first > min,
{
    if pictures.len() > 0 {
        lemma_segment_at(c, pictures, min, 0, 0, i);
        lemma_segment_at(c, pictures, min, 0, 0, i + 1);
    }
}

/// A picture that is not the last ends where a unit begins: at the first
/// of the zero bytes before the `0x01` of a start code. The picture after
/// it therefore begins with a start code.
pub proof fn lemma_picture_ends_at_start_code(c: CodecProfile, s: Seq<u8>, lo: int)
    requires
        !is_last_picture(c, s, lo),
    ensures
        exists|u: int|
            {
                &&& #[trigger] unit_at(c, s, lo, u)
                &&& picture_end(c, s, lo) + 2 <= u <= follower(c, s, lo)
                &&& zero_run_start(s, lo, u) == picture_end(c, s, lo)
                &&& forall|j: int| picture_end(c, s, lo) <= j < u ==> s[j] == 0
            },
{
    let q = follower(c, s, lo);
    lemma_picture_advances(c, s, lo);
    lemma_leading_run(c, s, lo, q);
    let u = match leading_run(c, s, lo, q) {
        Some(u) => u,
        None => q,
    };
    lemma_zero_run(s, lo, u);
    lemma_start_code_zeros(s, lo, u);
    assert(unit_at(c, s, lo, u));
}

/// The type code of a unit recognised before `hi` stands in the list of
/// the units before `hi`.
proof fn lemma_unit_is_listed(c: CodecProfile, s: Seq<u8>, lo: int, hi: int, i: int)
    requires
        unit_at(c, s, lo, i),
        i < hi,
    ensures
        exists|k: int|
            0 <= k < unit_types(c, s, lo, hi).len() && #[trigger] unit_types(c, s, lo, hi)[k]
                == c.type_of(s[i + 1]),
    decreases hi - i,
{
    let list = unit_types(c, s, lo, hi);
    if i == hi - 1 {
        assert(list[list.len() - 1] == c.type_of(s[i + 1]));
    } else {
        lemma_unit_is_listed(c, s, lo, hi - 1, i);
        let k = choose|k: int|
            0 <= k < unit_types(c, s, lo, hi - 1).len() && #[trigger] unit_types(
                c,
                s,
                lo,
                hi - 1,
            )[k] == c.type_of(s[i + 1]);
        assert(list[k] == c.type_of(s[i + 1]));
    }
}

/// An access unit that is flagged as a refresh picture holds a slice of a
/// refresh type: the slice that opens it.
pub proof fn lemma_refresh_picture_holds_refresh_slice(c: CodecProfile, s: Seq<u8>, lo: int)
    requires
        access_unit(c, s, lo).idr_flag,
    ensures
        exists|k: int|
            0 <= k < access_unit(c, s, lo).frame_header.len() && c.class_of_type(
                #[trigger] access_unit(c, s, lo).frame_header[k],
            ) == (NalClass::Vcl { refresh: true }),
{
    let p = opener(c, s, lo);
    let end = picture_end(c, s, lo);
    lemma_next_first_slice(c, s, lo, lo);
    if !is_last_picture(c, s, lo) {
        lemma_picture_advances(c, s, lo);
    }
    lemma_unit_is_listed(c, s, lo, end, p);
    let k = choose|k: int|
        0 <= k < unit_types(c, s, lo, end).len() && #[trigger] unit_types(c, s, lo, end)[k]
            == c.type_of(s[p + 1]);
    assert(access_unit(c, s, lo).frame_header[k] == c.type_of(s[p + 1]));
}

} // verus!
