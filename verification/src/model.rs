//! What the numbers of a record mean, stated over the bytes of an input.
//!
//! Every definition walks the bytes from the last one back, so that the
//! value for an input with one more byte follows from the value without it.

use vstd::prelude::*;
use vstd::utf8::is_continuation_byte;

verus! {

/// The byte that ends a line.
pub const LINE_FEED: u8 = 0x0A;

/// How often `needle` occurs in `s`.
pub open spec fn count_byte(s: Seq<u8>, needle: u8) -> nat
    decreases s.len(),
{
    if s.len() == 0 {
        0
    } else {
        count_byte(s.drop_last(), needle) + if s.last() == needle {
            1nat
        } else {
            0nat
        }
    }
}

/// The number of lines of `s`: the number of its line feeds.
pub open spec fn newlines(s: Seq<u8>) -> nat {
    count_byte(s, LINE_FEED)
}

/// True for a byte that begins a character in UTF-8: any byte whose top two
/// bits are not `10`.
pub open spec fn starts_char(b: u8) -> bool {
    !is_continuation_byte(b)
}

/// The number of characters of `s`, taken as the number of bytes that begin
/// one.
pub open spec fn char_starts(s: Seq<u8>) -> nat
    decreases s.len(),
{
    if s.len() == 0 {
        0
    } else {
        char_starts(s.drop_last()) + if starts_char(s.last()) {
            1nat
        } else {
            0nat
        }
    }
}

/// What the byte `b` adds to the length of its line: one for each byte, or
/// one for each byte that begins a character where lengths are in
/// characters.
pub open spec fn width(b: u8, in_chars: bool) -> nat {
    if in_chars && !starts_char(b) {
        0
    } else {
        1
    }
}

/// The length of `s` as part of a line.
pub open spec fn measure(s: Seq<u8>, in_chars: bool) -> nat {
    if in_chars {
        char_starts(s)
    } else {
        s.len()
    }
}

/// The length of the line that is open at the end of `s`: of what follows
/// the last line feed.
pub open spec fn open_line(s: Seq<u8>, in_chars: bool) -> nat
    decreases s.len(),
{
    if s.len() == 0 {
        0
    } else if s.last() == LINE_FEED {
        0
    } else {
        open_line(s.drop_last(), in_chars) + width(s.last(), in_chars)
    }
}

/// The length of the longest line of `s` that a line feed ends, without
/// that line feed; 0 where no line is ended. What follows the last line
/// feed is not a line.
pub open spec fn longest_line(s: Seq<u8>, in_chars: bool) -> nat
    decreases s.len(),
{
    if s.len() == 0 {
        0
    } else if s.last() == LINE_FEED {
        let before = longest_line(s.drop_last(), in_chars);
        let ended = open_line(s.drop_last(), in_chars);
        if before >= ended {
            before
        } else {
            ended
        }
    } else {
        longest_line(s.drop_last(), in_chars)
    }
}

/// True for the bytes that separate words: space, horizontal tab, line
/// feed, form feed and carriage return.
pub open spec fn is_space(b: u8) -> bool {
    b == 0x20 || b == 0x09 || b == 0x0A || b == 0x0C || b == 0x0D
}

/// True when `s` ends inside a word.
pub open spec fn in_word(s: Seq<u8>) -> bool {
    s.len() > 0 && !is_space(s.last())
}

/// The number of words of `s`: of the places where a byte that is no
/// separator stands first or follows a separator.
pub open spec fn words(s: Seq<u8>) -> nat
    decreases s.len(),
{
    if s.len() == 0 {
        0
    } else {
        words(s.drop_last()) + if !is_space(s.last()) && !in_word(s.drop_last()) {
            1nat
        } else {
            0nat
        }
    }
}

/// Occurrences in two pieces add up.
pub proof fn lemma_count_byte_concat(a: Seq<u8>, b: Seq<u8>, needle: u8)
    ensures
        count_byte(a + b, needle) == count_byte(a, needle) + count_byte(b, needle),
    decreases b.len(),
{
    if b.len() == 0 {
        assert(a + b =~= a);
    } else {
        assert((a + b).drop_last() =~= a + b.drop_last());
        lemma_count_byte_concat(a, b.drop_last(), needle);
    }
}

/// Character starts in two pieces add up.
pub proof fn lemma_char_starts_concat(a: Seq<u8>, b: Seq<u8>)
    ensures
        char_starts(a + b) == char_starts(a) + char_starts(b),
    decreases b.len(),
{
    if b.len() == 0 {
        assert(a + b =~= a);
    } else {
        assert((a + b).drop_last() =~= a + b.drop_last());
        lemma_char_starts_concat(a, b.drop_last());
    }
}

/// No number of a record exceeds the number of bytes.
pub proof fn lemma_bounded_by_len(s: Seq<u8>, needle: u8, in_chars: bool)
    ensures
        count_byte(s, needle) <= s.len(),
        char_starts(s) <= s.len(),
        measure(s, in_chars) <= s.len(),
        words(s) <= s.len(),
        open_line(s, in_chars) <= s.len(),
        longest_line(s, in_chars) <= s.len(),
    decreases s.len(),
{
    if s.len() > 0 {
        lemma_bounded_by_len(s.drop_last(), needle, in_chars);
    }
}

/// Bytes without a line feed, put behind `a`, lengthen the open line and
/// change neither the number of lines nor the longest line.
pub proof fn lemma_line_piece(a: Seq<u8>, piece: Seq<u8>, in_chars: bool)
    requires
        forall|i: int| 0 <= i < piece.len() ==> piece[i] != LINE_FEED,
    ensures
        newlines(a + piece) == newlines(a),
        open_line(a + piece, in_chars) == open_line(a, in_chars) + measure(piece, in_chars),
        longest_line(a + piece, in_chars) == longest_line(a, in_chars),
    decreases piece.len(),
{
    if piece.len() == 0 {
        assert(a + piece =~= a);
    } else {
        assert((a + piece).drop_last() =~= a + piece.drop_last());
        lemma_line_piece(a, piece.drop_last(), in_chars);
    }
}

/// A line feed put behind `a` ends the open line.
pub proof fn lemma_line_end(a: Seq<u8>, in_chars: bool)
    ensures
        newlines(a.push(LINE_FEED)) == newlines(a) + 1,
        open_line(a.push(LINE_FEED), in_chars) == 0,
        longest_line(a.push(LINE_FEED), in_chars) == (if longest_line(a, in_chars) >= open_line(
            a,
            in_chars,
        ) {
            longest_line(a, in_chars)
        } else {
            open_line(a, in_chars)
        }),
{
    assert(a.push(LINE_FEED).drop_last() =~= a);
}

/// True when `found` lists the places of `needle` in `s`: each entry is
/// such a place, the entries ascend, and no place is missing.
pub open spec fn lists_places(found: Seq<usize>, needle: u8, s: Seq<u8>) -> bool {
    &&& forall|k: int|
        0 <= k < found.len() ==> (#[trigger] found[k]) < s.len() && s[found[k] as int] == needle
    &&& forall|j: int, k: int| 0 <= j < k < found.len() ==> found[j] < found[k]
    &&& forall|i: int|
        0 <= i < s.len() && #[trigger] s[i] == needle ==> exists|k: int|
            0 <= k < found.len() && found[k] == i
}

/// Where `found` lists the places of `needle` in `s`, `needle` stands
/// nowhere between entry `k - 1` and entry `k`: nowhere before the first
/// entry, between two neighbours, or after the last.
pub proof fn lemma_no_place_between(found: Seq<usize>, needle: u8, s: Seq<u8>, k: int, i: int)
    requires
        lists_places(found, needle, s),
        0 <= k <= found.len(),
        (if k == 0 {
            0
        } else {
            found[k - 1] + 1
        }) <= i,
        i < (if k == found.len() {
            s.len() as int
        } else {
            found[k] as int
        }),
    ensures
        s[i] != needle,
{
    if s[i] == needle {
        let m = choose|m: int| 0 <= m < found.len() && found[m] == i;
        if m < k {
            if m < k - 1 {
                assert(found[m] < found[k - 1]);
            }
        } else {
            if m > k {
                assert(found[k] < found[m]);
            }
        }
    }
}

/// True when the bytes `from..to` of `s` are a line that a line feed ends:
/// a line feed stands at `to` and nowhere in `from..to`, and `from` is the
/// start of `s` or the place behind a line feed.
pub open spec fn is_line(s: Seq<u8>, from: int, to: int) -> bool {
    &&& 0 <= from <= to < s.len()
    &&& s[to] == LINE_FEED
    &&& from == 0 || s[from - 1] == LINE_FEED
    &&& forall|i: int| from <= i < to ==> s[i] != LINE_FEED
}

/// Where the open line of `s` begins: behind the last line feed, or at the
/// start of `s` where there is none.
pub open spec fn open_line_start(s: Seq<u8>) -> int
    decreases s.len(),
{
    if s.len() == 0 {
        0
    } else if s.last() == LINE_FEED {
        s.len() as int
    } else {
        open_line_start(s.drop_last())
    }
}

/// The open line of `s` is what follows the last line feed, and its length
/// is the length of these bytes.
pub proof fn lemma_open_line_is_the_tail(s: Seq<u8>, in_chars: bool)
    ensures
        0 <= open_line_start(s) <= s.len(),
        open_line_start(s) == 0 || s[open_line_start(s) - 1] == LINE_FEED,
        forall|i: int| open_line_start(s) <= i < s.len() ==> s[i] != LINE_FEED,
        open_line(s, in_chars) == measure(s.subrange(open_line_start(s), s.len() as int), in_chars),
    decreases s.len(),
{
    let from = open_line_start(s);
    if s.len() == 0 || s.last() == LINE_FEED {
        assert(s.subrange(from, s.len() as int) =~= Seq::<u8>::empty());
    } else {
        let before = s.drop_last();
        lemma_open_line_is_the_tail(before, in_chars);
        assert(s.subrange(from, s.len() as int).drop_last() =~= before.subrange(
            from,
            before.len() as int,
        ));
        assert forall|i: int| from <= i < s.len() implies s[i] != LINE_FEED by {
            if i < before.len() {
                assert(before[i] != LINE_FEED);
            }
        }
    }
}

/// No line of `s` is longer than `longest_line` says.
pub proof fn lemma_longest_line_bounds_each_line(s: Seq<u8>, in_chars: bool, from: int, to: int)
    requires
        is_line(s, from, to),
    ensures
        measure(s.subrange(from, to), in_chars) <= longest_line(s, in_chars),
    decreases s.len(),
{
    let before = s.drop_last();
    if to == s.len() - 1 {
        lemma_open_line_is_the_tail(before, in_chars);
        let start = open_line_start(before);
        if from < start {
            assert(s[start - 1] == LINE_FEED);
        }
        if start < from {
            assert(before[from - 1] == LINE_FEED);
        }
        assert(s.subrange(from, to) =~= before.subrange(start, before.len() as int));
    } else {
        assert(is_line(before, from, to));
        lemma_longest_line_bounds_each_line(before, in_chars, from, to);
        assert(before.subrange(from, to) =~= s.subrange(from, to));
    }
}

/// Where `s` has a line, one of its lines is as long as `longest_line`
/// says; where it has none, `longest_line` is 0.
pub proof fn lemma_longest_line_is_reached(s: Seq<u8>, in_chars: bool)
    ensures
        newlines(s) == 0 ==> longest_line(s, in_chars) == 0,
        newlines(s) > 0 ==> exists|from: int, to: int|
            #[trigger] is_line(s, from, to) && measure(s.subrange(from, to), in_chars)
                == longest_line(s, in_chars),
    decreases s.len(),
{
    if s.len() > 0 {
        let before = s.drop_last();
        lemma_longest_line_is_reached(before, in_chars);
        if s.last() == LINE_FEED && (newlines(before) == 0 || longest_line(before, in_chars)
            < open_line(before, in_chars)) {
            lemma_open_line_is_the_tail(before, in_chars);
            let from = open_line_start(before);
            let to = s.len() - 1;
            assert(s.subrange(from, to) =~= before.subrange(from, before.len() as int));
            assert forall|i: int| from <= i < to implies s[i] != LINE_FEED by {
                assert(before[i] != LINE_FEED);
            }
            if from > 0 {
                assert(before[from - 1] == LINE_FEED);
            }
            assert(is_line(s, from, to));
        } else if newlines(before) > 0 {
            let (from, to) = choose|from: int, to: int|
                #[trigger] is_line(before, from, to) && measure(
                    before.subrange(from, to),
                    in_chars,
                ) == longest_line(before, in_chars);
            assert(before.subrange(from, to) =~= s.subrange(from, to));
            assert forall|i: int| from <= i < to implies s[i] != LINE_FEED by {
                assert(before[i] != LINE_FEED);
            }
            assert(s[to] == before[to]);
            if from > 0 {
                assert(s[from - 1] == before[from - 1]);
            }
            assert(is_line(s, from, to));
        }
    }
}

} // verus!
