use vstd::prelude::*;
use vstd::std_specs::iter::IteratorSpec;

verus! {

/// The code points drawn two columns wide on a console: the emoticon, symbol,
/// transport, regional-indicator and dingbat blocks, and the enclosed and
/// supplementary ranges between them.
pub open spec fn is_emoji_code(u: u32) -> bool {
    ||| 0x1F600 <= u <= 0x1F64F
    ||| 0x1F300 <= u <= 0x1F5FF
    ||| 0x1F680 <= u <= 0x1F6FF
    ||| 0x1F1E0 <= u <= 0x1F1FF
    ||| 0x2702 <= u <= 0x27B0
    ||| 0x24C2 <= u <= 0x1F251
}

/// The number of console columns that `c` takes.
pub open spec fn char_width(c: char) -> nat {
    if is_emoji_code(c as u32) {
        2
    } else {
        1
    }
}

/// The number of console columns that the characters of `s` take.
pub open spec fn screen_width(s: Seq<char>) -> nat
    decreases s.len(),
{
    if s.len() == 0 {
        0
    } else {
        screen_width(s.drop_last()) + char_width(s.last())
    }
}

/// Whether `c` is drawn two columns wide.
pub fn is_emoji(c: char) -> (r: bool)
    ensures
        r == is_emoji_code(c as u32),
{
    let u = c as u32;
    (0x1F600 <= u && u <= 0x1F64F) || (0x1F300 <= u && u <= 0x1F5FF) || (0x1F680 <= u && u
        <= 0x1F6FF) || (0x1F1E0 <= u && u <= 0x1F1FF) || (0x2702 <= u && u <= 0x27B0) || (0x24C2
        <= u && u <= 0x1F251)
}

/// The number of console columns that `s` takes: two for each emoji, one for
/// every other character. A `str` never holds more than `isize::MAX` bytes,
/// hence never more than `usize::MAX / 2` characters.
pub fn on_screen_len(s: &str) -> (r: usize)
    requires
        s@.len() <= usize::MAX / 2,
    ensures
        r == screen_width(s@),
{
    let mut it = s.chars();
    let mut total: usize = 0;
    let ghost mut i: int = 0;
    loop
        invariant
            0 <= i <= s@.len(),
            s@.len() <= usize::MAX / 2,
            it.obeys_prophetic_iter_laws(),
            it.remaining() == s@.skip(i),
            total == screen_width(s@.take(i)),
            total <= 2 * i,
        decreases s@.len() - i,
    {
        match it.next() {
            Some(c) => {
                assert(s@.take(i + 1).drop_last() =~= s@.take(i));
                assert(s@[i] == c);
                total = total + if is_emoji(c) {
                    2
                } else {
                    1
                };
                proof {
                    i = i + 1;
                }
                assert(it.remaining() =~= s@.skip(i));
            },
            None => {
                assert(s@.take(i) =~= s@);
                return total;
            },
        }
    }
}

} // verus!
