//! What the scanner sees in a stream, stated over byte sequences: start
//! codes, NAL units, the units that open a picture, and where a picture
//! that begins at a given position ends.
//!
//! All positions are indices into the whole stream `s`. A scan that begins
//! at `lo` knows nothing of the bytes before `lo`.

use vstd::prelude::*;
use crate::codec::{CodecProfile, NalClass, first_slice_bit};
use crate::BitstreamView;

verus! {

/// The byte at `i` is the `0x01` of a start code: the two bytes before it
/// are zero and were read by this scan.
pub open spec fn start_code_at(s: Seq<u8>, lo: int, i: int) -> bool {
    &&& 0 <= lo
    &&& lo + 2 <= i < s.len()
    &&& s[i - 2] == 0
    &&& s[i - 1] == 0
    &&& s[i] == 1
}

/// Where the run of zero bytes that ends just before `i` begins. The run
/// does not reach below `lo`; it is empty (the result is `i`) where the
/// byte before `i` is not zero.
pub open spec fn zero_run_start(s: Seq<u8>, lo: int, i: int) -> int
    decreases i - lo,
{
    if lo < i <= s.len() && s[i - 1] == 0 {
        zero_run_start(s, lo, i - 1)
    } else {
        i
    }
}

/// A NAL unit is recognised at the start code that ends at `i` when the
/// stream holds its header and, for a probed type, the byte after it.
pub open spec fn unit_at(c: CodecProfile, s: Seq<u8>, lo: int, i: int) -> bool {
    &&& start_code_at(s, lo, i)
    &&& i + 1 < s.len()
    &&& i + c.span_of(c.type_of(s[i + 1])) < s.len()
}

/// The unit at `i` is a slice whose first-slice bit is set.
pub open spec fn first_slice_at(c: CodecProfile, s: Seq<u8>, lo: int, i: int) -> bool {
    &&& unit_at(c, s, lo, i)
    &&& c.is_probed(c.type_of(s[i + 1]))
    &&& first_slice_bit(s[i + c.header_len() + 1])
}

/// The unit at `i` is a non-VCL unit other than the suffix type: it may
/// lead the next picture.
pub open spec fn leading_unit_at(c: CodecProfile, s: Seq<u8>, lo: int, i: int) -> bool {
    &&& unit_at(c, s, lo, i)
    &&& c.class_of(s[i + 1]) == NalClass::NonVcl
}

/// The first position at or after `from` with a first slice; `s.len()`
/// where there is none.
pub open spec fn next_first_slice(c: CodecProfile, s: Seq<u8>, lo: int, from: int) -> int
    decreases s.len() - from,
{
    if from >= s.len() {
        s.len() as int
    } else if first_slice_at(c, s, lo, from) {
        from
    } else {
        next_first_slice(c, s, lo, from + 1)
    }
}

/// The run of leading units that stands directly before `pos` (no slice and
/// no suffix unit between the run and `pos`): the position of its first
/// unit, `None` where the run is empty.
pub open spec fn leading_run(c: CodecProfile, s: Seq<u8>, lo: int, pos: int) -> Option<int>
    decreases pos - lo,
{
    if pos <= lo {
        None
    } else if leading_unit_at(c, s, lo, pos - 1) {
        match leading_run(c, s, lo, pos - 1) {
            Some(u) => Some(u),
            None => Some(pos - 1),
        }
    } else if unit_at(c, s, lo, pos - 1) {
        None
    } else {
        leading_run(c, s, lo, pos - 1)
    }
}

/// The unit that opens the picture scanned from `lo`: the first slice with
/// its first-slice bit set (`s.len()` where there is none).
pub open spec fn opener(c: CodecProfile, s: Seq<u8>, lo: int) -> int {
    next_first_slice(c, s, lo, lo)
}

/// The first slice of the picture after the one scanned from `lo`
/// (`s.len()` where there is none).
pub open spec fn follower(c: CodecProfile, s: Seq<u8>, lo: int) -> int {
    next_first_slice(c, s, lo, opener(c, s, lo) + 1)
}

/// The scan from `lo` runs into the end of the stream before it meets the
/// first slice of another picture.
pub open spec fn is_last_picture(c: CodecProfile, s: Seq<u8>, lo: int) -> bool {
    follower(c, s, lo) >= s.len()
}

/// Where the picture ends whose following picture begins with the first
/// slice at `q`: at the first zero byte of the start code of the first of
/// the leading units before `q`, or of `q` itself where there are none.
pub open spec fn cut_before(c: CodecProfile, s: Seq<u8>, lo: int, q: int) -> int {
    match leading_run(c, s, lo, q) {
        Some(u) => zero_run_start(s, lo, u),
        None => zero_run_start(s, lo, q),
    }
}

/// Where the picture scanned from `lo` ends (one past its last byte).
pub open spec fn picture_end(c: CodecProfile, s: Seq<u8>, lo: int) -> int {
    if is_last_picture(c, s, lo) {
        s.len() as int
    } else {
        cut_before(c, s, lo, follower(c, s, lo))
    }
}

/// Type codes of the units recognised before `hi`, in stream order.
pub open spec fn unit_types(c: CodecProfile, s: Seq<u8>, lo: int, hi: int) -> Seq<u8>
    decreases hi - lo,
{
    if hi <= lo {
        Seq::empty()
    } else if unit_at(c, s, lo, hi - 1) {
        unit_types(c, s, lo, hi - 1).push(c.type_of(s[hi]))
    } else {
        unit_types(c, s, lo, hi - 1)
    }
}

/// Offsets from `lo` at which the units recognised before `hi` begin, in
/// stream order. A unit begins at the first zero byte of its start code.
pub open spec fn unit_offsets(c: CodecProfile, s: Seq<u8>, lo: int, hi: int) -> Seq<usize>
    decreases hi - lo,
{
    if hi <= lo {
        Seq::empty()
    } else if unit_at(c, s, lo, hi - 1) {
        unit_offsets(c, s, lo, hi - 1).push((zero_run_start(s, lo, hi - 1) - lo) as usize)
    } else {
        unit_offsets(c, s, lo, hi - 1)
    }
}

/// Whether the picture scanned from `lo` is a refresh picture: it has an
/// opening slice, and that slice is of a refresh type.
pub open spec fn picture_is_refresh(c: CodecProfile, s: Seq<u8>, lo: int) -> bool {
    let p = opener(c, s, lo);
    p < s.len() && c.is_refresh(c.type_of(s[p + 1]))
}

/// The access unit that a scan from `lo` yields.
pub open spec fn access_unit(c: CodecProfile, s: Seq<u8>, lo: int) -> BitstreamView {
    let end = picture_end(c, s, lo);
    BitstreamView {
        frame_header: unit_types(c, s, lo, end),
        frame_location: unit_offsets(c, s, lo, end),
        frame_data: s.subrange(lo, end),
        idr_flag: picture_is_refresh(c, s, lo),
    }
}

/// The run of zero bytes before `i` lies between `lo` and `i`, holds only
/// zero bytes, and cannot be extended downwards.
pub proof fn lemma_zero_run(s: Seq<u8>, lo: int, i: int)
    requires
        0 <= lo <= i <= s.len(),
    ensures
        lo <= zero_run_start(s, lo, i) <= i,
        forall|j: int| zero_run_start(s, lo, i) <= j < i ==> s[j] == 0,
        zero_run_start(s, lo, i) == lo || s[zero_run_start(s, lo, i) - 1] != 0,
    decreases i - lo,
{
    if lo < i && s[i - 1] == 0 {
        lemma_zero_run(s, lo, i - 1);
    }
}

/// The `0x01` of a start code is preceded by a zero run of two or more
/// bytes, and conversely.
pub proof fn lemma_start_code_zeros(s: Seq<u8>, lo: int, i: int)
    requires
        0 <= lo <= i < s.len(),
    ensures
        start_code_at(s, lo, i) <==> (s[i] == 1 && i - zero_run_start(s, lo, i) >= 2),
{
    lemma_zero_run(s, lo, i);
    if lo < i {
        lemma_zero_run(s, lo, i - 1);
        if lo < i - 1 {
            lemma_zero_run(s, lo, i - 2);
        }
    }
}

/// No start code ends inside the zero run before `i`.
pub proof fn lemma_zero_run_has_no_unit(c: CodecProfile, s: Seq<u8>, lo: int, i: int, j: int)
    requires
        0 <= lo <= i <= s.len(),
        zero_run_start(s, lo, i) <= j < i,
    ensures
        !start_code_at(s, lo, j),
        !unit_at(c, s, lo, j),
{
    lemma_zero_run(s, lo, i);
}

/// A unit begins after the `0x01` of every start code before it.
pub proof fn lemma_unit_begins_after(s: Seq<u8>, lo: int, i: int, j: int)
    requires
        0 <= lo <= j < i <= s.len(),
        s[j] != 0,
    ensures
        j < zero_run_start(s, lo, i),
{
    lemma_zero_run(s, lo, i);
}

/// There is one offset for each type code.
pub proof fn lemma_unit_lists_agree(c: CodecProfile, s: Seq<u8>, lo: int, hi: int)
    ensures
        unit_types(c, s, lo, hi).len() == unit_offsets(c, s, lo, hi).len(),
    decreases hi - lo,
{
    if hi > lo {
        lemma_unit_lists_agree(c, s, lo, hi - 1);
    }
}

/// The units before `a` are the first of the units before any later `b`.
pub proof fn lemma_units_extend(c: CodecProfile, s: Seq<u8>, lo: int, a: int, b: int)
    requires
        a <= b,
    ensures
        unit_types(c, s, lo, a).len() <= unit_types(c, s, lo, b).len(),
        unit_types(c, s, lo, a) == unit_types(c, s, lo, b).take(
            unit_types(c, s, lo, a).len() as int,
        ),
        unit_offsets(c, s, lo, a) == unit_offsets(c, s, lo, b).take(
            unit_types(c, s, lo, a).len() as int,
        ),
    decreases b - a,
{
    lemma_unit_lists_agree(c, s, lo, a);
    if a < b {
        lemma_units_extend(c, s, lo, a, b - 1);
        lemma_unit_lists_agree(c, s, lo, b - 1);
        if b > lo {
            let n = unit_types(c, s, lo, a).len() as int;
            assert(unit_types(c, s, lo, b).take(n) == unit_types(c, s, lo, b - 1).take(n));
            assert(unit_offsets(c, s, lo, b).take(n) == unit_offsets(c, s, lo, b - 1).take(n));
        } else {
            assert(unit_types(c, s, lo, a) == Seq::<u8>::empty());
            assert(unit_offsets(c, s, lo, a) == Seq::<usize>::empty());
        }
    } else {
        assert(unit_types(c, s, lo, a) == unit_types(c, s, lo, a).take(
            unit_types(c, s, lo, a).len() as int,
        ));
        assert(unit_offsets(c, s, lo, a) == unit_offsets(c, s, lo, a).take(
            unit_offsets(c, s, lo, a).len() as int,
        ));
    }
}

/// Where no unit is recognised between `a` and `b`, the units before `a`
/// are those before `b`.
pub proof fn lemma_units_unchanged(c: CodecProfile, s: Seq<u8>, lo: int, a: int, b: int)
    requires
        a <= b,
        forall|j: int| a <= j < b ==> !unit_at(c, s, lo, j),
    ensures
        unit_types(c, s, lo, a) == unit_types(c, s, lo, b),
        unit_offsets(c, s, lo, a) == unit_offsets(c, s, lo, b),
    decreases b - a,
{
    if a < b {
        lemma_units_unchanged(c, s, lo, a, b - 1);
        if b <= lo {
            assert(unit_types(c, s, lo, a) == Seq::<u8>::empty());
            assert(unit_offsets(c, s, lo, a) == Seq::<usize>::empty());
        }
    }
}

/// The units before `hi` begin inside `lo..hi`, each after the one before.
pub proof fn lemma_unit_offsets_ordered(c: CodecProfile, s: Seq<u8>, lo: int, hi: int)
    requires
        0 <= lo,
        hi <= s.len() <= usize::MAX,
    ensures
        forall|k: int|
            0 <= k < unit_offsets(c, s, lo, hi).len() ==> 0 <= #[trigger] unit_offsets(
                c,
                s,
                lo,
                hi,
            )[k] < hi - lo,
        forall|j: int, k: int|
            0 <= j < k < unit_offsets(c, s, lo, hi).len() ==> unit_offsets(c, s, lo, hi)[j]
                < unit_offsets(c, s, lo, hi)[k],
    decreases hi - lo,
{
    if hi > lo {
        lemma_unit_offsets_ordered(c, s, lo, hi - 1);
        let before = unit_offsets(c, s, lo, hi - 1);
        let all = unit_offsets(c, s, lo, hi);
        if unit_at(c, s, lo, hi - 1) {
            let i = hi - 1;
            let offset = (zero_run_start(s, lo, i) - lo) as usize;
            lemma_zero_run(s, lo, i);
            assert(all == before.push(offset));
            assert forall|k: int| 0 <= k < all.len() implies 0 <= #[trigger] all[k] < hi - lo by {
                if k < before.len() {
                    assert(all[k] == before[k]);
                }
            }
            assert forall|j: int, k: int| 0 <= j < k < all.len() implies all[j] < all[k] by {
                assert(all[j] == before[j]);
                if k < before.len() {
                    assert(all[k] == before[k]);
                } else {
                    // An earlier unit has the `0x01` of its start code before
                    // the zero run of this one.
                    lemma_offset_below_unit(c, s, lo, i, j);
                }
            }
        } else {
            assert(all == before);
        }
    }
}

/// Each unit before `hi` begins before the `0x01` of its own start code,
/// which no later zero run reaches.
proof fn lemma_offset_below_unit(c: CodecProfile, s: Seq<u8>, lo: int, hi: int, k: int)
    requires
        0 <= lo,
        hi <= s.len() <= usize::MAX,
        0 <= k < unit_offsets(c, s, lo, hi).len(),
    ensures
        unit_offsets(c, s, lo, hi)[k] < zero_run_start(s, lo, hi) - lo,
    decreases hi - lo,
{
    if hi > lo {
        lemma_zero_run(s, lo, hi);
        lemma_zero_run(s, lo, hi - 1);
        if unit_at(c, s, lo, hi - 1) {
            let i = hi - 1;
            // s[i] == 1, so the zero run before `hi` is empty.
            assert(zero_run_start(s, lo, hi) == hi);
            if k < unit_offsets(c, s, lo, i).len() {
                lemma_offset_below_unit(c, s, lo, i, k);
            }
        } else {
            lemma_offset_below_unit(c, s, lo, hi - 1, k);
            if s[hi - 1] != 0 {
                assert(zero_run_start(s, lo, hi) == hi);
            }
        }
    }
}

/// What `next_first_slice` finds: a first slice at or after `from`, with
/// none between `from` and it.
pub proof fn lemma_next_first_slice(c: CodecProfile, s: Seq<u8>, lo: int, from: int)
    ensures
        from <= next_first_slice(c, s, lo, from) || next_first_slice(c, s, lo, from) == s.len(),
        next_first_slice(c, s, lo, from) <= s.len(),
        next_first_slice(c, s, lo, from) < s.len() ==> first_slice_at(
            c,
            s,
            lo,
            next_first_slice(c, s, lo, from),
        ),
        forall|j: int|
            from <= j < next_first_slice(c, s, lo, from) ==> !first_slice_at(c, s, lo, j),
    decreases s.len() - from,
{
    if from < s.len() && !first_slice_at(c, s, lo, from) {
        lemma_next_first_slice(c, s, lo, from + 1);
    }
}

/// What `leading_run` finds: a leading unit before `pos` with none but
/// leading units between it and `pos`.
pub proof fn lemma_leading_run(c: CodecProfile, s: Seq<u8>, lo: int, pos: int)
    ensures
        leading_run(c, s, lo, pos) matches Some(u) ==> {
            &&& lo <= u < pos
            &&& leading_unit_at(c, s, lo, u)
            &&& forall|j: int|
                u <= j < pos && unit_at(c, s, lo, j) ==> leading_unit_at(c, s, lo, j)
        },
    decreases pos - lo,
{
    if pos > lo {
        lemma_leading_run(c, s, lo, pos - 1);
    }
}

/// A first slice is no leading unit.
pub proof fn lemma_first_slice_is_vcl(c: CodecProfile, s: Seq<u8>, lo: int, i: int)
    requires
        first_slice_at(c, s, lo, i),
    ensures
        unit_at(c, s, lo, i),
        c.is_vcl(c.type_of(s[i + 1])),
        !leading_unit_at(c, s, lo, i),
{
}

/// A picture that is not the last one holds its opening slice and ends
/// before the first slice of the next picture, inside the stream.
pub proof fn lemma_picture_advances(c: CodecProfile, s: Seq<u8>, lo: int)
    requires
        !is_last_picture(c, s, lo),
    ensures
        0 <= lo,
        lo + 2 <= opener(c, s, lo) < picture_end(c, s, lo) <= follower(c, s, lo) - 2,
        follower(c, s, lo) < s.len(),
        first_slice_at(c, s, lo, opener(c, s, lo)),
        first_slice_at(c, s, lo, follower(c, s, lo)),
{
    let p = opener(c, s, lo);
    let q = follower(c, s, lo);
    lemma_next_first_slice(c, s, lo, lo);
    lemma_next_first_slice(c, s, lo, p + 1);
    lemma_first_slice_is_vcl(c, s, lo, p);
    lemma_leading_run(c, s, lo, q);
    assert(p < s.len());
    assert(p < q);
    match leading_run(c, s, lo, q) {
        Some(u) => {
            assert(p < u);
            lemma_start_code_zeros(s, lo, u);
            lemma_unit_begins_after(s, lo, u, p);
        },
        None => {
            lemma_start_code_zeros(s, lo, q);
            lemma_unit_begins_after(s, lo, q, p);
        },
    }
}

/// The access units that repeated scans yield, from a first scan at `lo`
/// to the one that reaches the end of the stream.
pub open spec fn pictures(c: CodecProfile, s: Seq<u8>, lo: int) -> Seq<BitstreamView>
    decreases s.len() - lo,
{
    if is_last_picture(c, s, lo) {
        seq![access_unit(c, s, lo)]
    } else {
        proof {
            lemma_picture_advances(c, s, lo);
        }
        seq![access_unit(c, s, lo)] + pictures(c, s, picture_end(c, s, lo))
    }
}

/// Every scan yields at least one access unit.
pub proof fn lemma_pictures_nonempty(c: CodecProfile, s: Seq<u8>, lo: int)
    ensures
        pictures(c, s, lo).len() >= 1,
        pictures(c, s, lo)[0] == access_unit(c, s, lo),
        is_last_picture(c, s, lo) <==> pictures(c, s, lo).len() == 1,
    decreases s.len() - lo,
{
    if !is_last_picture(c, s, lo) {
        lemma_picture_advances(c, s, lo);
        lemma_pictures_nonempty(c, s, picture_end(c, s, lo));
    }
}

/// What the byte at `pos` adds to what a scan from `lo` knows: how the
/// zero run, the lists of units, the run of leading units and the search
/// for a first slice go on from `pos` to `pos + 1`.
pub proof fn lemma_scan_step(c: CodecProfile, s: Seq<u8>, lo: int, pos: int)
    requires
        0 <= lo <= pos < s.len(),
    ensures
        lo <= zero_run_start(s, lo, pos) <= pos,
        zero_run_start(s, lo, pos + 1) == if s[pos] == 0 {
            zero_run_start(s, lo, pos)
        } else {
            pos + 1
        },
        start_code_at(s, lo, pos) <==> (s[pos] == 1 && pos - zero_run_start(s, lo, pos) >= 2),
        unit_types(c, s, lo, pos + 1) == if unit_at(c, s, lo, pos) {
            unit_types(c, s, lo, pos).push(c.type_of(s[pos + 1]))
        } else {
            unit_types(c, s, lo, pos)
        },
        unit_offsets(c, s, lo, pos + 1) == if unit_at(c, s, lo, pos) {
            unit_offsets(c, s, lo, pos).push((zero_run_start(s, lo, pos) - lo) as usize)
        } else {
            unit_offsets(c, s, lo, pos)
        },
        leading_run(c, s, lo, pos + 1) == if leading_unit_at(c, s, lo, pos) {
            match leading_run(c, s, lo, pos) {
                Some(u) => Some(u),
                None => Some(pos),
            }
        } else if unit_at(c, s, lo, pos) {
            None
        } else {
            leading_run(c, s, lo, pos)
        },
        next_first_slice(c, s, lo, pos) == if first_slice_at(c, s, lo, pos) {
            pos
        } else {
            next_first_slice(c, s, lo, pos + 1)
        },
        unit_types(c, s, lo, pos).len() <= pos - lo,
{
    lemma_zero_run(s, lo, pos);
    lemma_start_code_zeros(s, lo, pos);
    lemma_unit_count(c, s, lo, pos);
}

/// There are no more units before `hi` than bytes.
pub proof fn lemma_unit_count(c: CodecProfile, s: Seq<u8>, lo: int, hi: int)
    requires
        lo <= hi,
    ensures
        unit_types(c, s, lo, hi).len() <= hi - lo,
    decreases hi - lo,
{
    if hi > lo {
        lemma_unit_count(c, s, lo, hi - 1);
    }
}

/// What a scan from `lo` yields when it has read the whole stream and met
/// no first slice after the one that opened the picture.
pub proof fn lemma_scan_ends(c: CodecProfile, s: Seq<u8>, lo: int, opened: bool)
    requires
        0 <= lo <= s.len() <= usize::MAX,
        !opened ==> next_first_slice(c, s, lo, lo) == s.len(),
        opened ==> follower(c, s, lo) == s.len(),
    ensures
        is_last_picture(c, s, lo),
        picture_end(c, s, lo) == s.len(),
        access_unit(c, s, lo).wf(),
{
    let end = s.len() as int;
    lemma_unit_lists_agree(c, s, lo, end);
    lemma_unit_offsets_ordered(c, s, lo, end);
    if !opened {
        assert(next_first_slice(c, s, lo, end + 1) == s.len());
    }
}

/// What a scan from `lo` yields when it meets at `q` the first slice of
/// the next picture: the picture ends at `cut_before(q)`, which lies at
/// the beginning of the zero run of `first`, the first of the leading
/// units before `q` or `q` itself; the units of the picture are those
/// before `first`.
pub proof fn lemma_scan_cuts(c: CodecProfile, s: Seq<u8>, lo: int, q: int)
    requires
        0 <= lo <= q < s.len() <= usize::MAX,
        first_slice_at(c, s, lo, q),
        opener(c, s, lo) < q,
        follower(c, s, lo) == next_first_slice(c, s, lo, q),
    ensures
        !is_last_picture(c, s, lo),
        picture_end(c, s, lo) == cut_before(c, s, lo, q),
        lo <= cut_before(c, s, lo, q) <= q - 2,
        access_unit(c, s, lo).wf(),
        ({
            let first = match leading_run(c, s, lo, q) {
                Some(u) => u,
                None => q,
            };
            let kept = unit_types(c, s, lo, first).len() as int;
            &&& lo <= first <= q
            &&& cut_before(c, s, lo, q) == zero_run_start(s, lo, first)
            &&& kept <= unit_types(c, s, lo, q).len()
            &&& unit_offsets(c, s, lo, q).len() == unit_types(c, s, lo, q).len()
            &&& unit_types(c, s, lo, cut_before(c, s, lo, q)) == unit_types(c, s, lo, q).take(kept)
            &&& unit_offsets(c, s, lo, cut_before(c, s, lo, q)) == unit_offsets(c, s, lo, q).take(
                kept,
            )
        }),
{
    let first = match leading_run(c, s, lo, q) {
        Some(u) => u,
        None => q,
    };
    let end = cut_before(c, s, lo, q);
    lemma_leading_run(c, s, lo, q);
    lemma_zero_run(s, lo, first);
    lemma_start_code_zeros(s, lo, first);
    assert(end == zero_run_start(s, lo, first));
    lemma_units_extend(c, s, lo, first, q);
    lemma_unit_lists_agree(c, s, lo, q);
    assert forall|j: int| end <= j < first implies !unit_at(c, s, lo, j) by {
        lemma_zero_run_has_no_unit(c, s, lo, first, j);
    }
    lemma_units_unchanged(c, s, lo, end, first);
    lemma_unit_lists_agree(c, s, lo, end);
    lemma_unit_offsets_ordered(c, s, lo, end);
}

} // verus!
