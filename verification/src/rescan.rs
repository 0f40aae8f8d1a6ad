//! Scanning a part of a stream again: a run of whole pictures, cut out of
//! the stream and scanned on its own, falls into the same pictures.

use vstd::prelude::*;
use crate::codec::{first_slice_bit, CodecProfile};
use crate::laws::lemma_segment_at;
use crate::segment::{concat_data, segments};
use crate::BitstreamView;
use crate::scan::{
    access_unit, first_slice_at, follower, is_last_picture, leading_run, leading_unit_at,
    lemma_first_slice_is_vcl, lemma_leading_run, lemma_next_first_slice, lemma_picture_advances,
    lemma_pictures_nonempty, lemma_unit_begins_after, next_first_slice, opener, picture_end,
    picture_is_refresh, pictures, start_code_at, unit_at, unit_offsets, unit_types,
    zero_run_start,
};

verus! {

/// `b` is where one of the pictures ends that repeated scans from `a`
/// yield.
pub open spec fn is_picture_end(c: CodecProfile, s: Seq<u8>, a: int, b: int) -> bool
    decreases s.len() - a,
{
    if picture_end(c, s, a) == b {
        true
    } else if is_last_picture(c, s, a) {
        false
    } else {
        proof {
            lemma_picture_advances(c, s, a);
        }
        is_picture_end(c, s, picture_end(c, s, a), b)
    }
}

/// Index of the last byte that the scanner reads to place the unit at `i`.
pub open spec fn unit_last(c: CodecProfile, s: Seq<u8>, i: int) -> int {
    i + c.span_of(c.type_of(s[i + 1]))
}

/// A later start code lies beyond the bytes read for a first slice: its
/// `0x01` is no first-slice bit.
proof fn lemma_start_code_after_first_slice(c: CodecProfile, s: Seq<u8>, lo: int, p: int, u: int)
    requires
        first_slice_at(c, s, lo, p),
        start_code_at(s, lo, u),
        p < u,
    ensures
        unit_last(c, s, p) < zero_run_start(s, lo, u),
        s[unit_last(c, s, p)] != 0,
{
    let last = unit_last(c, s, p);
    assert(last == p + c.header_len() + 1);
    assert(first_slice_bit(s[last]));
    // The two zero bytes of the later start code follow the `0x01` at `p`.
    assert(u >= p + 3);
    assert(last <= p + 3);
    lemma_unit_begins_after(s, lo, u, last);
}

/// The slice that opens a picture lies wholly inside it.
pub proof fn lemma_opening_slice_inside(c: CodecProfile, s: Seq<u8>, lo: int)
    requires
        opener(c, s, lo) < s.len(),
    ensures
        first_slice_at(c, s, lo, opener(c, s, lo)),
        unit_last(c, s, opener(c, s, lo)) < picture_end(c, s, lo),
{
    let p = opener(c, s, lo);
    lemma_next_first_slice(c, s, lo, lo);
    if !is_last_picture(c, s, lo) {
        let q = follower(c, s, lo);
        lemma_picture_advances(c, s, lo);
        lemma_first_slice_is_vcl(c, s, lo, p);
        lemma_leading_run(c, s, lo, q);
        match leading_run(c, s, lo, q) {
            Some(u) => {
                assert(p < u);
                lemma_start_code_after_first_slice(c, s, lo, p, u);
            },
            None => {
                lemma_start_code_after_first_slice(c, s, lo, p, q);
            },
        }
    }
}

/// Between `from` and the first slice found from there, a search finds
/// the same first slice.
proof fn lemma_next_first_slice_later(c: CodecProfile, s: Seq<u8>, lo: int, from: int, later: int)
    requires
        from <= later <= next_first_slice(c, s, lo, from),
    ensures
        next_first_slice(c, s, lo, later) == next_first_slice(c, s, lo, from),
    decreases later - from,
{
    if from < later {
        lemma_next_first_slice(c, s, lo, from);
        lemma_next_first_slice_later(c, s, lo, from + 1, later);
    }
}

/// A scan that begins at `e`, after `lo`, finds from `from` on the first
/// slice that the scan from `lo` finds, provided the scan from `lo` has no
/// first slice in the first two bytes after `e`.
proof fn lemma_next_first_slice_rebased(c: CodecProfile, s: Seq<u8>, lo: int, e: int, from: int)
    requires
        0 <= lo <= e <= from,
        forall|j: int| e <= j < e + 2 ==> !first_slice_at(c, s, lo, j),
    ensures
        next_first_slice(c, s, e, from) == next_first_slice(c, s, lo, from),
    decreases s.len() - from,
{
    if from < s.len() {
        assert(first_slice_at(c, s, e, from) == first_slice_at(c, s, lo, from));
        if !first_slice_at(c, s, lo, from) {
            lemma_next_first_slice_rebased(c, s, lo, e, from + 1);
        }
    }
}

/// The scan after a picture opens with the first slice that ended the
/// picture.
pub proof fn lemma_next_scan_opens(c: CodecProfile, s: Seq<u8>, lo: int)
    requires
        !is_last_picture(c, s, lo),
    ensures
        opener(c, s, picture_end(c, s, lo)) == follower(c, s, lo),
{
    let p = opener(c, s, lo);
    let q = follower(c, s, lo);
    let e = picture_end(c, s, lo);
    lemma_picture_advances(c, s, lo);
    lemma_next_first_slice(c, s, lo, p + 1);
    lemma_next_first_slice_later(c, s, lo, p + 1, e);
    lemma_next_first_slice_rebased(c, s, lo, e, e);
}

/// The ends of the pictures scanned from `a` lie after `a`, inside the
/// stream.
pub proof fn lemma_picture_end_bounds(c: CodecProfile, s: Seq<u8>, a: int, b: int)
    requires
        0 <= a <= s.len(),
        is_picture_end(c, s, a, b),
    ensures
        a <= picture_end(c, s, a) <= b <= s.len(),
    decreases s.len() - a,
{
    if picture_end(c, s, a) != b {
        lemma_picture_advances(c, s, a);
        lemma_picture_end_bounds(c, s, picture_end(c, s, a), b);
    } else if !is_last_picture(c, s, a) {
        lemma_picture_advances(c, s, a);
    }
}

/// In the part `a0..b` of a stream a zero run begins where it begins in
/// the stream.
proof fn lemma_part_zero_run(s: Seq<u8>, a0: int, b: int, lo: int, i: int)
    requires
        0 <= a0 <= lo <= i <= b <= s.len(),
    ensures
        zero_run_start(s.subrange(a0, b), lo - a0, i - a0) == zero_run_start(s, lo, i) - a0,
    decreases i - lo,
{
    let t = s.subrange(a0, b);
    if lo < i {
        assert(t[i - a0 - 1] == s[i - 1]);
        if s[i - 1] == 0 {
            lemma_part_zero_run(s, a0, b, lo, i - 1);
        }
    }
}

/// In the part `a0..b` of a stream the scanner recognises the units of
/// the stream for which it need not read beyond `b`.
proof fn lemma_part_unit(c: CodecProfile, s: Seq<u8>, a0: int, b: int, lo: int, i: int)
    requires
        0 <= a0 <= lo <= b <= s.len(),
    ensures
        start_code_at(s.subrange(a0, b), lo - a0, i - a0) == (start_code_at(s, lo, i) && i < b),
        unit_at(c, s.subrange(a0, b), lo - a0, i - a0) == (unit_at(c, s, lo, i) && unit_last(
            c,
            s,
            i,
        ) < b),
        first_slice_at(c, s.subrange(a0, b), lo - a0, i - a0) == (first_slice_at(c, s, lo, i)
            && unit_last(c, s, i) < b),
        leading_unit_at(c, s.subrange(a0, b), lo - a0, i - a0) == (leading_unit_at(c, s, lo, i)
            && unit_last(c, s, i) < b),
{
    let t = s.subrange(a0, b);
    if lo + 2 <= i < b {
        assert(t[i - a0] == s[i]);
        assert(t[i - a0 - 1] == s[i - 1]);
        assert(t[i - a0 - 2] == s[i - 2]);
        if i + 1 < b {
            assert(t[i - a0 + 1] == s[i + 1]);
            if unit_last(c, s, i) < b && c.is_probed(c.type_of(s[i + 1])) {
                assert(t[i - a0 + c.header_len() + 1] == s[i + c.header_len() + 1]);
            }
        }
    }
}

/// Where the first slice that the stream holds from `from` on can be read
/// before `b`, the part `a0..b` holds it as its first from there on.
proof fn lemma_part_first_slice_found(
    c: CodecProfile,
    s: Seq<u8>,
    a0: int,
    b: int,
    lo: int,
    from: int,
)
    requires
        0 <= a0 <= lo <= from,
        lo <= b <= s.len(),
        next_first_slice(c, s, lo, from) < s.len(),
        unit_last(c, s, next_first_slice(c, s, lo, from)) < b,
    ensures
        next_first_slice(c, s.subrange(a0, b), lo - a0, from - a0) == next_first_slice(
            c,
            s,
            lo,
            from,
        ) - a0,
    decreases s.len() - from,
{
    lemma_next_first_slice(c, s, lo, from);
    lemma_part_unit(c, s, a0, b, lo, from);
    if !first_slice_at(c, s, lo, from) {
        lemma_part_first_slice_found(c, s, a0, b, lo, from + 1);
    }
}

/// Where no first slice that the stream holds from `from` on can be read
/// before `b`, the part `a0..b` holds none from there on.
proof fn lemma_part_first_slice_none(
    c: CodecProfile,
    s: Seq<u8>,
    a0: int,
    b: int,
    lo: int,
    from: int,
)
    requires
        0 <= a0 <= lo <= from,
        lo <= b <= s.len(),
        forall|j: int| from <= j && first_slice_at(c, s, lo, j) ==> unit_last(c, s, j) >= b,
    ensures
        next_first_slice(c, s.subrange(a0, b), lo - a0, from - a0) == b - a0,
    decreases b - from,
{
    if from < b {
        lemma_part_unit(c, s, a0, b, lo, from);
        lemma_part_first_slice_none(c, s, a0, b, lo, from + 1);
    }
}

/// Before a start code that lies before `b`, the part `a0..b` holds the
/// same run of leading units as the stream.
proof fn lemma_part_leading_run(
    c: CodecProfile,
    s: Seq<u8>,
    a0: int,
    b: int,
    lo: int,
    pos: int,
    q: int,
)
    requires
        0 <= a0 <= lo <= b <= s.len(),
        pos <= q < b,
        start_code_at(s, lo, q),
    ensures
        leading_run(c, s.subrange(a0, b), lo - a0, pos - a0) == match leading_run(c, s, lo, pos) {
            Some(u) => Some(u - a0),
            None => None,
        },
    decreases pos - lo,
{
    if pos > lo {
        lemma_part_leading_run(c, s, a0, b, lo, pos - 1, q);
        lemma_part_unit(c, s, a0, b, lo, pos - 1);
        if start_code_at(s, lo, pos - 1) {
            // The bytes read for this unit end before the `0x01` at `q`.
            assert(pos - 1 + 3 <= q);
        }
    }
}

/// What a scan of the part `a0..b` yields from `lo`, where `b` is the end
/// of a picture scanned from `lo` on: the picture that the scan of the
/// stream yields; it is the last picture of the part exactly if it ends at
/// `b`.
pub proof fn lemma_part_picture(c: CodecProfile, s: Seq<u8>, a0: int, b: int, lo: int)
    requires
        0 <= a0 <= lo <= s.len(),
        is_picture_end(c, s, lo, b),
    ensures
        lo <= picture_end(c, s, lo) <= b <= s.len(),
        picture_end(c, s.subrange(a0, b), lo - a0) == picture_end(c, s, lo) - a0,
        is_last_picture(c, s.subrange(a0, b), lo - a0) == (picture_end(c, s, lo) == b),
        picture_is_refresh(c, s.subrange(a0, b), lo - a0) == picture_is_refresh(c, s, lo),
{
    let t = s.subrange(a0, b);
    let p = opener(c, s, lo);
    let q = follower(c, s, lo);
    let e = picture_end(c, s, lo);
    lemma_picture_end_bounds(c, s, lo, b);
    lemma_next_first_slice(c, s, lo, lo);
    lemma_next_first_slice(c, s, lo, p + 1);
    if p < s.len() {
        lemma_opening_slice_inside(c, s, lo);
        assert(t[p - a0 + 1] == s[p + 1]);
    }
    if e == b {
        if p < s.len() {
            // The opening slice is read before `b`; every later first slice
            // lies at or after the one that ended the picture, beyond `b`.
            lemma_part_first_slice_found(c, s, a0, b, lo, lo);
            if !is_last_picture(c, s, lo) {
                lemma_picture_advances(c, s, lo);
            }
            assert forall|j: int| p + 1 <= j && first_slice_at(c, s, lo, j) implies unit_last(
                c,
                s,
                j,
            ) >= b by {
                assert(j >= q);
            }
            lemma_part_first_slice_none(c, s, a0, b, lo, p + 1);
        } else {
            assert forall|j: int| lo <= j && first_slice_at(c, s, lo, j) implies unit_last(
                c,
                s,
                j,
            ) >= b by {
                assert(j >= p);
            }
            lemma_part_first_slice_none(c, s, a0, b, lo, lo);
            assert(next_first_slice(c, t, lo - a0, b - a0 + 1) == b - a0);
        }
    } else {
        lemma_picture_advances(c, s, lo);
        lemma_next_scan_opens(c, s, lo);
        lemma_picture_end_bounds(c, s, e, b);
        lemma_opening_slice_inside(c, s, e);
        assert(unit_last(c, s, q) < b);
        lemma_part_first_slice_found(c, s, a0, b, lo, lo);
        lemma_part_first_slice_found(c, s, a0, b, lo, p + 1);
        lemma_part_leading_run(c, s, a0, b, lo, q, q);
        lemma_leading_run(c, s, lo, q);
        match leading_run(c, s, lo, q) {
            Some(u) => {
                lemma_part_zero_run(s, a0, b, lo, u);
            },
            None => {
                lemma_part_zero_run(s, a0, b, lo, q);
            },
        }
    }
}

/// Where the scanner need not read beyond `b` for any unit before `hi`,
/// the part `a0..b` holds before `hi` the units of the stream, with their
/// types and offsets.
proof fn lemma_part_units(c: CodecProfile, s: Seq<u8>, a0: int, b: int, lo: int, hi: int)
    requires
        0 <= a0 <= lo <= b <= s.len(),
        hi <= b,
        forall|x: int| lo <= x < hi && unit_at(c, s, lo, x) ==> unit_last(c, s, x) < b,
    ensures
        unit_types(c, s.subrange(a0, b), lo - a0, hi - a0) == unit_types(c, s, lo, hi),
        unit_offsets(c, s.subrange(a0, b), lo - a0, hi - a0) == unit_offsets(c, s, lo, hi),
    decreases hi - lo,
{
    let t = s.subrange(a0, b);
    if hi > lo {
        lemma_part_units(c, s, a0, b, lo, hi - 1);
        lemma_part_unit(c, s, a0, b, lo, hi - 1);
        if unit_at(c, s, lo, hi - 1) {
            assert(t[hi - a0] == s[hi]);
            lemma_part_zero_run(s, a0, b, lo, hi - 1);
        }
    }
}

/// The units of a picture that is followed by another in the part
/// `a0..b` are read before `b`: each ends before the first slice of the
/// next picture, which is read before `b`.
proof fn lemma_units_read_before(c: CodecProfile, s: Seq<u8>, lo: int, q: int, x: int)
    requires
        start_code_at(s, lo, q),
        unit_at(c, s, lo, x),
        x < q,
    ensures
        unit_last(c, s, x) <= q,
{
    assert(x + 3 <= q);
}

/// What a scan of the part `a0..b` yields from `lo`, where `b` is the end
/// of a picture scanned from `lo` on and the scanner need not read beyond
/// `b` for any unit before `b`: the access unit that the scan of the
/// stream yields, with its units and its refresh flag.
proof fn lemma_part_access_unit(c: CodecProfile, s: Seq<u8>, a0: int, b: int, lo: int)
    requires
        0 <= a0 <= lo <= s.len(),
        is_picture_end(c, s, lo, b),
        forall|x: int| lo <= x < b && unit_at(c, s, lo, x) ==> unit_last(c, s, x) < b,
    ensures
        access_unit(c, s.subrange(a0, b), lo - a0) == access_unit(c, s, lo),
{
    let t = s.subrange(a0, b);
    let e = picture_end(c, s, lo);
    lemma_part_picture(c, s, a0, b, lo);
    lemma_part_units(c, s, a0, b, lo, e);
    assert(t.subrange(lo - a0, e - a0) == s.subrange(lo, e));
}

/// Where the `k`-th picture of a stream begins: the first at the
/// beginning of the stream, each other where the one before it ends.
pub open spec fn picture_start(c: CodecProfile, s: Seq<u8>, k: int) -> int
    decreases k,
{
    if k <= 0 {
        0
    } else {
        picture_end(c, s, picture_start(c, s, k - 1))
    }
}

/// The `k`-th picture of a stream is the one scanned from where it
/// begins, and the pictures after it are those that the scans from there
/// yield. Every picture but the first holds at least one byte.
pub proof fn lemma_picture_starts(c: CodecProfile, s: Seq<u8>, k: int)
    requires
        0 <= k < pictures(c, s, 0).len(),
    ensures
        0 <= picture_start(c, s, k) <= picture_start(c, s, k + 1) <= s.len(),
        pictures(c, s, picture_start(c, s, k)) == pictures(c, s, 0).skip(k),
        pictures(c, s, 0)[k] == access_unit(c, s, picture_start(c, s, k)),
        is_last_picture(c, s, picture_start(c, s, k)) == (k == pictures(c, s, 0).len() - 1),
        k >= 1 ==> picture_start(c, s, k) < picture_start(c, s, k + 1),
    decreases k,
{
    let all = pictures(c, s, 0);
    if k == 0 {
        assert(all.skip(0) == all);
    } else {
        lemma_picture_starts(c, s, k - 1);
        let before = picture_start(c, s, k - 1);
        lemma_pictures_nonempty(c, s, before);
        lemma_picture_advances(c, s, before);
        assert(all.skip(k - 1).skip(1) == all.skip(k));
        assert(pictures(c, s, before).skip(1) == pictures(c, s, picture_start(c, s, k)));
    }
    let lo = picture_start(c, s, k);
    lemma_pictures_nonempty(c, s, lo);
    assert(all.skip(k)[0] == all[k]);
    if !is_last_picture(c, s, lo) {
        lemma_picture_advances(c, s, lo);
    }
}

/// Later pictures begin later.
pub proof fn lemma_picture_starts_ordered(c: CodecProfile, s: Seq<u8>, i: int, j: int)
    requires
        0 <= i <= j <= pictures(c, s, 0).len(),
    ensures
        0 <= picture_start(c, s, i) <= picture_start(c, s, j) <= s.len(),
    decreases j - i,
{
    if i < j {
        lemma_picture_starts(c, s, j - 1);
        lemma_picture_starts_ordered(c, s, i, j - 1);
    } else if i > 0 {
        lemma_picture_starts(c, s, i - 1);
    }
}

/// The end of picture `j` is the end of one of the pictures scanned from
/// the beginning of picture `i`, where `i` is not after `j`.
pub proof fn lemma_run_ends(c: CodecProfile, s: Seq<u8>, i: int, j: int)
    requires
        0 <= i <= j < pictures(c, s, 0).len(),
    ensures
        is_picture_end(c, s, picture_start(c, s, i), picture_start(c, s, j + 1)),
    decreases j - i,
{
    lemma_picture_starts(c, s, i);
    if i < j {
        lemma_run_ends(c, s, i + 1, j);
    }
}

/// The pictures `i..=j` of a stream hold the bytes from the beginning of
/// picture `i` to the end of picture `j`.
pub proof fn lemma_run_bytes(c: CodecProfile, s: Seq<u8>, i: int, j: int)
    requires
        0 <= i <= j < pictures(c, s, 0).len(),
    ensures
        concat_data(pictures(c, s, 0).subrange(i, j + 1)) == s.subrange(
            picture_start(c, s, i),
            picture_start(c, s, j + 1),
        ),
    decreases j - i,
{
    let all = pictures(c, s, 0);
    let run = all.subrange(i, j + 1);
    lemma_picture_starts(c, s, j);
    lemma_picture_starts_ordered(c, s, i, j);
    assert(run.last() == all[j]);
    if i < j {
        lemma_run_bytes(c, s, i, j - 1);
        assert(run.drop_last() == all.subrange(i, j));
        assert(s.subrange(picture_start(c, s, i), picture_start(c, s, j)) + s.subrange(
            picture_start(c, s, j),
            picture_start(c, s, j + 1),
        ) == s.subrange(picture_start(c, s, i), picture_start(c, s, j + 1)));
    } else {
        assert(run.drop_last() == Seq::<BitstreamView>::empty());
        assert(concat_data(run.drop_last()) == Seq::<u8>::empty());
    }
}

/// The part of a stream from the beginning of picture `i0` to the end of
/// picture `j`, scanned from where picture `i` begins in it, falls into
/// the pictures `i..=j` of the stream.
proof fn lemma_part_run(c: CodecProfile, s: Seq<u8>, i0: int, i: int, j: int)
    requires
        0 <= i0 <= i <= j < pictures(c, s, 0).len(),
    ensures
        pictures(
            c,
            s.subrange(picture_start(c, s, i0), picture_start(c, s, j + 1)),
            picture_start(c, s, i) - picture_start(c, s, i0),
        ).len() == j - i + 1,
        forall|k: int|
            0 <= k <= j - i ==> (#[trigger] pictures(
                c,
                s.subrange(picture_start(c, s, i0), picture_start(c, s, j + 1)),
                picture_start(c, s, i) - picture_start(c, s, i0),
            )[k]).frame_data == pictures(c, s, 0)[i + k].frame_data,
        forall|k: int|
            0 <= k <= j - i ==> (#[trigger] pictures(
                c,
                s.subrange(picture_start(c, s, i0), picture_start(c, s, j + 1)),
                picture_start(c, s, i) - picture_start(c, s, i0),
            )[k]).idr_flag == pictures(c, s, 0)[i + k].idr_flag,
    decreases j - i,
{
    let all = pictures(c, s, 0);
    let a0 = picture_start(c, s, i0);
    let lo = picture_start(c, s, i);
    let e = picture_start(c, s, i + 1);
    let b = picture_start(c, s, j + 1);
    let t = s.subrange(a0, b);
    lemma_picture_starts(c, s, i);
    lemma_picture_starts(c, s, j);
    lemma_picture_starts_ordered(c, s, i0, i);
    lemma_picture_starts_ordered(c, s, i + 1, j + 1);
    lemma_run_ends(c, s, i, j);
    lemma_part_picture(c, s, a0, b, lo);
    lemma_pictures_nonempty(c, t, lo - a0);
    let again = pictures(c, t, lo - a0);
    assert(t.subrange(lo - a0, e - a0) == s.subrange(lo, e));
    assert(again[0].frame_data == all[i].frame_data);
    assert(again[0].idr_flag == all[i].idr_flag);
    if i < j {
        lemma_picture_starts_ordered(c, s, i + 1, j);
        assert(e < b);
        lemma_part_run(c, s, i0, i + 1, j);
        let rest = pictures(c, t, e - a0);
        assert(again == seq![access_unit(c, t, lo - a0)] + rest);
        assert forall|k: int| 0 <= k <= j - i implies (#[trigger] again[k]).frame_data == all[i
            + k].frame_data by {
            if k > 0 {
                assert(again[k] == rest[k - 1]);
            }
        }
        assert forall|k: int| 0 <= k <= j - i implies (#[trigger] again[k]).idr_flag == all[i
            + k].idr_flag by {
            if k > 0 {
                assert(again[k] == rest[k - 1]);
            }
        }
    } else {
        assert(e == b);
    }
}

/// The part of a stream from the beginning of picture `i0` to the end of
/// picture `j`, scanned from where picture `i` begins in it, yields the
/// access units `i..=j` of the stream with their units, provided the
/// scanner need not read beyond the end of picture `j` for any of its
/// units.
proof fn lemma_part_run_units(c: CodecProfile, s: Seq<u8>, i0: int, i: int, j: int)
    requires
        0 <= i0 <= i <= j < pictures(c, s, 0).len(),
        forall|x: int|
            unit_at(c, s, picture_start(c, s, j), x) && x < picture_start(c, s, j + 1)
                ==> unit_last(c, s, x) < picture_start(c, s, j + 1),
    ensures
        pictures(
            c,
            s.subrange(picture_start(c, s, i0), picture_start(c, s, j + 1)),
            picture_start(c, s, i) - picture_start(c, s, i0),
        ) == pictures(c, s, 0).subrange(i, j + 1),
    decreases j - i,
{
    let all = pictures(c, s, 0);
    let a0 = picture_start(c, s, i0);
    let lo = picture_start(c, s, i);
    let e = picture_start(c, s, i + 1);
    let b = picture_start(c, s, j + 1);
    let t = s.subrange(a0, b);
    lemma_picture_starts(c, s, i);
    lemma_picture_starts(c, s, j);
    lemma_picture_starts_ordered(c, s, i0, i);
    lemma_picture_starts_ordered(c, s, i + 1, j + 1);
    lemma_run_ends(c, s, i, j);
    lemma_part_picture(c, s, a0, b, lo);
    lemma_pictures_nonempty(c, t, lo - a0);
    let again = pictures(c, t, lo - a0);
    if i < j {
        lemma_picture_starts_ordered(c, s, i + 1, j);
        assert(e < b);
        // The units of picture `i` end before the first slice of picture
        // `i + 1`, which is read before `b`.
        let q = follower(c, s, lo);
        lemma_picture_advances(c, s, lo);
        lemma_next_scan_opens(c, s, lo);
        lemma_run_ends(c, s, i + 1, j);
        lemma_picture_end_bounds(c, s, e, b);
        lemma_opening_slice_inside(c, s, e);
        assert forall|x: int| lo <= x < e && unit_at(c, s, lo, x) implies unit_last(c, s, x)
            < b by {
            lemma_units_read_before(c, s, lo, q, x);
        }
        lemma_part_units(c, s, a0, b, lo, e);
        assert(t.subrange(lo - a0, e - a0) == s.subrange(lo, e));
        assert(access_unit(c, t, lo - a0) == all[i]);
        lemma_part_run_units(c, s, i0, i + 1, j);
        let rest = pictures(c, t, e - a0);
        assert(again == seq![access_unit(c, t, lo - a0)] + rest);
        assert(again == all.subrange(i, j + 1));
    } else {
        assert(e == b);
        lemma_part_access_unit(c, s, a0, b, lo);
        assert(again == seq![all[i]]);
        assert(again == all.subrange(i, j + 1));
    }
}

/// Scanning a run of whole pictures again yields the same pictures: the
/// bytes of the pictures `i..=j` of a stream, scanned on their own with
/// the same codec, fall into as many access units, each with the bytes
/// and the refresh flag of the picture it comes from.
pub proof fn lemma_rescan_keeps_boundaries(c: CodecProfile, s: Seq<u8>, i: int, j: int)
    requires
        0 <= i <= j < pictures(c, s, 0).len(),
    ensures
        pictures(c, concat_data(pictures(c, s, 0).subrange(i, j + 1)), 0).len() == j - i + 1,
        forall|k: int|
            0 <= k <= j - i ==> (#[trigger] pictures(
                c,
                concat_data(pictures(c, s, 0).subrange(i, j + 1)),
                0,
            )[k]).frame_data == pictures(c, s, 0)[i + k].frame_data,
        forall|k: int|
            0 <= k <= j - i ==> (#[trigger] pictures(
                c,
                concat_data(pictures(c, s, 0).subrange(i, j + 1)),
                0,
            )[k]).idr_flag == pictures(c, s, 0)[i + k].idr_flag,
{
    lemma_run_bytes(c, s, i, j);
    lemma_part_run(c, s, i, i, j);
}

/// Scanning a run of whole pictures again yields the same access units,
/// with the same lists of units, wherever the last picture of the run
/// holds no unit whose header reaches into the picture after it (a start
/// code that stands directly before the zero bytes of the next picture
/// is such a unit).
pub proof fn lemma_rescan_keeps_units(c: CodecProfile, s: Seq<u8>, i: int, j: int)
    requires
        0 <= i <= j < pictures(c, s, 0).len(),
        forall|x: int|
            unit_at(c, s, picture_start(c, s, j), x) && x < picture_start(c, s, j + 1)
                ==> unit_last(c, s, x) < picture_start(c, s, j + 1),
    ensures
        pictures(c, concat_data(pictures(c, s, 0).subrange(i, j + 1)), 0) == pictures(
            c,
            s,
            0,
        ).subrange(i, j + 1),
{
    lemma_run_bytes(c, s, i, j);
    lemma_part_run_units(c, s, i, i, j);
}

/// Scanning the access-unit section of an output file again, with the
/// same codec, yields the access units that the file was made of, byte for
/// byte and with the same refresh flags.
pub proof fn lemma_rescan_segment(c: CodecProfile, s: Seq<u8>, min: int, n: int)
    requires
        0 <= n < segments(c, pictures(c, s, 0), min).len(),
    ensures
        pictures(c, segments(c, pictures(c, s, 0), min)[n].payload(), 0).len() == segments(
            c,
            pictures(c, s, 0),
            min,
        )[n].units.len(),
        forall|k: int|
            0 <= k < segments(c, pictures(c, s, 0), min)[n].units.len() ==> (#[trigger] pictures(
                c,
                segments(c, pictures(c, s, 0), min)[n].payload(),
                0,
            )[k]).frame_data == segments(c, pictures(c, s, 0), min)[n].units[k].frame_data,
        forall|k: int|
            0 <= k < segments(c, pictures(c, s, 0), min)[n].units.len() ==> (#[trigger] pictures(
                c,
                segments(c, pictures(c, s, 0), min)[n].payload(),
                0,
            )[k]).idr_flag == segments(c, pictures(c, s, 0), min)[n].units[k].idr_flag,
{
    let all = pictures(c, s, 0);
    lemma_pictures_nonempty(c, s, 0);
    lemma_segment_at(c, all, min, 0, 0, n);
    let part = segments(c, all, min)[n];
    lemma_rescan_keeps_boundaries(c, s, part.first, part.last);
}

} // verus!
