//! Frame sizes on the command line: each is written `WIDTHxHEIGHT`, one
//! per frame, and `...` repeats the size before it for all frames left.

use vstd::prelude::*;
use vstd::string::StrSliceExecFns;
use crate::text::{outcome, parse_i32, parsed_i32, str_eq, words};

verus! {

/// The text has exactly one `x`, at `p`.
pub open spec fn only_x_at(text: Seq<char>, p: int) -> bool {
    &&& 0 <= p < text.len()
    &&& text[p] == 'x'
    &&& forall|j: int| 0 <= j < text.len() && j != p ==> text[j] != 'x'
}

/// The frame size that `text` writes, or the reason why it writes none:
/// the text must hold exactly one `x`, with a number that an `i32` holds on
/// each side of it.
pub open spec fn parsed_frame_size(text: Seq<char>) -> Result<(i32, i32), Seq<char>> {
    if !(exists|p: int| only_x_at(text, p)) {
        Err("invalid frame size"@)
    } else {
        let p = choose|p: int| only_x_at(text, p);
        match parsed_i32(text.take(p)) {
            None => Err("invalid frame width"@),
            Some(width) => match parsed_i32(text.skip(p + 1)) {
                None => Err("invalid frame height"@),
                Some(height) => Ok((width, height)),
            },
        }
    }
}

/// Whether a result and the result of its specification agree: the same
/// value, or an error with the same message.
pub open spec fn agrees<T>(got: Result<T, &'static str>, wanted: Result<T, Seq<char>>) -> bool {
    match (got, wanted) {
        (Ok(a), Ok(b)) => a == b,
        (Err(message), Err(text)) => message@ == text,
        _ => false,
    }
}

/// Reads a frame size written `WIDTHxHEIGHT`.
pub fn parse_frame_size(text: &str) -> (size: Result<(i32, i32), &'static str>)
    ensures
        agrees(size, parsed_frame_size(text@)),
{
    let n = text.unicode_len();
    let mut at: usize = n;
    let mut i: usize = 0;
    while i < n
        invariant
            n == text@.len(),
            0 <= i <= n,
            at <= n,
            at < n ==> at < i && text@[at as int] == 'x',
            forall|j: int| 0 <= j < i && j != at ==> text@[j] != 'x',
        decreases n - i,
    {
        if text.get_char(i) == 'x' {
            if at < n {
                proof {
                    assert forall|p: int| !only_x_at(text@, p) by {
                        if only_x_at(text@, p) {
                            if p == at {
                                assert(text@[i as int] != 'x');
                            } else {
                                assert(text@[at as int] != 'x');
                            }
                        }
                    }
                }
                return Err("invalid frame size");
            }
            at = i;
        }
        i = i + 1;
    }
    if at >= n {
        return Err("invalid frame size");
    }
    proof {
        assert(only_x_at(text@, at as int));
        let p = choose|p: int| only_x_at(text@, p);
        assert(p == at);
        assert(text@.take(at as int) == text@.subrange(0, at as int));
        assert(text@.skip(at + 1) == text@.subrange(at + 1, n as int));
    }
    let width = match parse_i32(text.substring_char(0, at)) {
        Some(width) => width,
        None => {
            return Err("invalid frame width");
        },
    };
    let height = match parse_i32(text.substring_char(at + 1, n)) {
        Some(height) => height,
        None => {
            return Err("invalid frame height");
        },
    };
    Ok((width, height))
}

/// The sizes of the frames from the `i`-th on, after `done`: the words
/// from the sixth on give one size each; the word `...` gives the size
/// before it to every frame that is left.
pub open spec fn frame_sizes_from(
    words: Seq<Seq<char>>,
    frames: int,
    too_few: Seq<char>,
    i: int,
    done: Seq<(i32, i32)>,
) -> Result<Seq<(i32, i32)>, Seq<char>>
    decreases frames - i,
{
    if i >= frames {
        Ok(done)
    } else if 5 + i >= words.len() {
        Err(too_few)
    } else if words[5 + i] == "..."@ {
        if i == 0 {
            Err("... can't be the first frame size"@)
        } else {
            Ok(done + Seq::new((frames - i) as nat, |j: int| done[i - 1]))
        }
    } else {
        match parsed_frame_size(words[5 + i]) {
            Ok(size) => frame_sizes_from(words, frames, too_few, i + 1, done.push(size)),
            Err(text) => Err(text),
        }
    }
}

/// The sizes of `frames` frames, as the words from the sixth on give them.
pub open spec fn frame_sizes(words: Seq<Seq<char>>, frames: int, too_few: Seq<char>) -> Result<
    Seq<(i32, i32)>,
    Seq<char>,
> {
    frame_sizes_from(words, frames, too_few, 0, Seq::empty())
}

/// Reads the sizes of `frame_num` frames from the words from the sixth on.
/// `too_few` is the message for a list that ends too early.
pub fn parse_frame_sizes(args: &[String], frame_num: usize, too_few: &'static str) -> (sizes:
    Result<Vec<(i32, i32)>, &'static str>)
    ensures
        outcome(sizes) == frame_sizes(words(args@), frame_num as int, too_few@),
{
    let count = args.len();
    let ghost all = words(args@);
    let mut list: Vec<(i32, i32)> = Vec::new();
    let mut i: usize = 0;
    while i < frame_num
        invariant
            count == args@.len(),
            all == words(args@),
            0 <= i <= frame_num,
            i + 5 <= count || i == 0,
            list@.len() == i,
            frame_sizes(all, frame_num as int, too_few@) == frame_sizes_from(
                all,
                frame_num as int,
                too_few@,
                i as int,
                list@,
            ),
        decreases frame_num - i,
    {
        if count < 6 || i >= count - 5 {
            return Err(too_few);
        }
        let word = args[5 + i].as_str();
        assert(word@ == all[5 + i]);
        if str_eq(word, "...") {
            if i == 0 {
                return Err("... can't be the first frame size");
            }
            let fill = list[i - 1];
            let ghost done = list@;
            let mut j: usize = i;
            while j < frame_num
                invariant
                    i <= j <= frame_num,
                    done.len() == i,
                    list@ == done + Seq::new((j - i) as nat, |k: int| fill),
                decreases frame_num - j,
            {
                list.push(fill);
                j = j + 1;
            }
            assert(list@ == done + Seq::new((frame_num - i) as nat, |k: int| done[i - 1]));
            return Ok(list);
        }
        match parse_frame_size(word) {
            Ok(size) => {
                list.push(size);
            },
            Err(message) => {
                return Err(message);
            },
        }
        i = i + 1;
    }
    Ok(list)
}

/// A list of sizes that could be read holds one size for each frame.
pub proof fn lemma_frame_sizes_len(
    words: Seq<Seq<char>>,
    frames: int,
    too_few: Seq<char>,
    i: int,
    done: Seq<(i32, i32)>,
)
    requires
        0 <= i <= frames,
        done.len() == i,
    ensures
        frame_sizes_from(words, frames, too_few, i, done) matches Ok(sizes) ==> sizes.len()
            == frames,
    decreases frames - i,
{
    if i < frames && 5 + i < words.len() && words[5 + i] != "..."@ {
        match parsed_frame_size(words[5 + i]) {
            Ok(size) => {
                lemma_frame_sizes_len(words, frames, too_few, i + 1, done.push(size));
            },
            Err(_) => {},
        }
    }
}

} // verus!
