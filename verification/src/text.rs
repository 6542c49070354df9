//! What the numbers of a record mean for decoded text, and how the bytes of
//! an input are cut into pieces of text.

use crate::model::{
    char_starts, count_byte, lemma_bounded_by_len, lemma_char_starts_concat,
    lemma_count_byte_concat, lemma_line_end, lemma_line_piece, longest_line, newlines, open_line,
    LINE_FEED,
};
use crate::model::{in_word, is_space, words};
use crate::trusted::unicode_whitespace;
use vstd::prelude::*;
use vstd::utf8::{
    decode_first_scalar, decode_utf8, encode_utf8, encode_utf8_decode_utf8,
    encode_utf8_valid_utf8, is_ascii_chars, is_ascii_chars_encode_utf8, length_of_first_scalar,
    pop_first_scalar, valid_first_scalar, valid_utf8, valid_utf8_concat,
};

verus! {

/// The largest number of bytes that is read, and decoded, at once.
pub const READ_SIZE: usize = 32768;

/// True for the characters that separate words: the line feed and every
/// character with the property White_Space.
pub open spec fn is_blank(c: char) -> bool {
    c == '\n' || unicode_whitespace(c)
}

/// The number of lines of `t`: the number of its line feeds.
pub open spec fn text_newlines(t: Seq<char>) -> nat
    decreases t.len(),
{
    if t.len() == 0 {
        0
    } else {
        text_newlines(t.drop_last()) + if t.last() == '\n' {
            1nat
        } else {
            0nat
        }
    }
}

/// The number of characters of the line that is open at the end of `t`.
pub open spec fn text_open_line(t: Seq<char>) -> nat
    decreases t.len(),
{
    if t.len() == 0 {
        0
    } else if t.last() == '\n' {
        0
    } else {
        text_open_line(t.drop_last()) + 1
    }
}

/// The number of characters of the longest line of `t` that a line feed
/// ends, without that line feed; 0 where no line is ended.
pub open spec fn text_longest_line(t: Seq<char>) -> nat
    decreases t.len(),
{
    if t.len() == 0 {
        0
    } else if t.last() == '\n' {
        let before = text_longest_line(t.drop_last());
        let ended = text_open_line(t.drop_last());
        if before >= ended {
            before
        } else {
            ended
        }
    } else {
        text_longest_line(t.drop_last())
    }
}

/// True when `t` ends inside a word.
pub open spec fn text_in_word(t: Seq<char>) -> bool {
    t.len() > 0 && !is_blank(t.last())
}

/// The number of words of `t`: of the places where a character that is no
/// separator stands first or follows a separator.
pub open spec fn text_words(t: Seq<char>) -> nat
    decreases t.len(),
{
    if t.len() == 0 {
        0
    } else {
        text_words(t.drop_last()) + if !is_blank(t.last()) && !text_in_word(t.drop_last()) {
            1nat
        } else {
            0nat
        }
    }
}

/// The numbers of a text as they stand after some of its characters, with
/// what has to be kept in mind to go on with the next character.
#[derive(Debug, Clone, Copy, PartialEq, Eq, Structural)]
pub struct TextCount {
    pub lines: u64,
    pub words: u64,
    pub chars: u64,
    pub longest_line: u64,
    /// The number of characters of the line that is open.
    pub line_len: u64,
    /// Whether the text ends inside a word.
    pub in_word: bool,
}

impl TextCount {
    /// True when the numbers are those of the text `t`.
    pub open spec fn counts(self, t: Seq<char>) -> bool {
        &&& self.lines == text_newlines(t)
        &&& self.words == text_words(t)
        &&& self.chars == t.len()
        &&& self.longest_line == text_longest_line(t)
        &&& self.line_len == text_open_line(t)
        &&& self.in_word == text_in_word(t)
    }

    /// True when one more character can be counted without a counter
    /// running over.
    pub open spec fn has_room(self) -> bool {
        &&& self.lines < u64::MAX
        &&& self.words < u64::MAX
        &&& self.chars < u64::MAX
        &&& self.line_len < u64::MAX
    }

    /// The numbers after one more character `c`, where `white` tells
    /// whether `c` is white space. A line feed, or white space, ends a
    /// word; the line feed ends the line, and the line that it ends is the
    /// longest if none before was longer. Any other character counts toward
    /// the open line, and begins a word unless it stands in one.
    pub open spec fn with(self, c: char, white: bool) -> TextCount {
        if c == '\n' {
            TextCount {
                lines: (self.lines + 1) as u64,
                words: self.words,
                chars: (self.chars + 1) as u64,
                longest_line: if self.longest_line < self.line_len {
                    self.line_len
                } else {
                    self.longest_line
                },
                line_len: 0,
                in_word: false,
            }
        } else if white {
            TextCount {
                chars: (self.chars + 1) as u64,
                line_len: (self.line_len + 1) as u64,
                in_word: false,
                ..self
            }
        } else {
            TextCount {
                words: if self.in_word {
                    self.words
                } else {
                    (self.words + 1) as u64
                },
                chars: (self.chars + 1) as u64,
                line_len: (self.line_len + 1) as u64,
                in_word: true,
                ..self
            }
        }
    }

    /// Counts one more character `c`, where `white` tells whether `c` is
    /// white space.
    pub fn push(&mut self, c: char, white: bool)
        requires
            old(self).has_room(),
        ensures
            *final(self) == old(self).with(c, white),
    {
        self.chars += 1;
        if white || c == '\n' {
            self.in_word = false;
            if c == '\n' {
                if self.longest_line < self.line_len {
                    self.longest_line = self.line_len;
                }
                self.line_len = 0;
                self.lines += 1;
            } else {
                self.line_len += 1;
            }
        } else {
            if !self.in_word {
                self.words += 1;
            }
            self.in_word = true;
            self.line_len += 1;
        }
    }

    /// Numbers that are those of a text are, after one more character,
    /// those of the text with that character.
    pub proof fn lemma_with_counts_one_more(self, t: Seq<char>, c: char)
        requires
            self.counts(t),
            self.has_room(),
        ensures
            self.with(c, unicode_whitespace(c)).counts(t.push(c)),
    {
        assert(t.push(c).drop_last() =~= t);
    }
}

/// The length of the first piece of `s`: its bytes up to and with the first
/// line feed, but no more than `limit` bytes.
pub open spec fn piece_len(s: Seq<u8>, limit: nat) -> nat
    decreases s.len(),
{
    if s.len() == 0 || limit == 0 {
        0
    } else if s[0] == LINE_FEED {
        1
    } else {
        1 + piece_len(s.drop_first(), (limit - 1) as nat)
    }
}

/// A piece is no longer than the bytes there are, nor than the limit, and
/// not empty unless one of these is zero.
pub proof fn lemma_piece_len(s: Seq<u8>, limit: nat)
    ensures
        piece_len(s, limit) <= s.len(),
        piece_len(s, limit) <= limit,
        s.len() > 0 && limit > 0 ==> piece_len(s, limit) >= 1,
    decreases s.len(),
{
    if s.len() > 0 && limit > 0 && s[0] != LINE_FEED {
        lemma_piece_len(s.drop_first(), (limit - 1) as nat);
    }
}

/// Finds the length of the piece of `data` that begins at `start`.
pub fn piece_at(data: &[u8], start: usize) -> (n: usize)
    requires
        start <= data@.len(),
    ensures
        n == piece_len(data@.skip(start as int), READ_SIZE as nat),
{
    let room: usize = data.len() - start;
    let mut n: usize = 0;
    assert(data@.skip(start + 0) =~= data@.skip(start as int));
    while n < READ_SIZE && n < room
        invariant
            n <= READ_SIZE,
            n <= room,
            room == data@.len() - start,
            data@.len() <= usize::MAX,
            piece_len(data@.skip(start as int), READ_SIZE as nat) == n + piece_len(
                data@.skip(start + n),
                (READ_SIZE - n) as nat,
            ),
        decreases READ_SIZE - n,
    {
        assert(data@.skip(start + n).drop_first() =~= data@.skip(start + n + 1));
        if data[start + n] == LINE_FEED {
            return n + 1;
        }
        n += 1;
    }
    n
}

/// True when each piece of `s`, cut at line feeds and after `READ_SIZE`
/// bytes without one, is valid UTF-8 by itself.
pub open spec fn pieces_valid(s: Seq<u8>) -> bool
    decreases s.len(),
{
    if s.len() == 0 {
        true
    } else {
        let n = piece_len(s, READ_SIZE as nat);
        if 0 < n <= s.len() {
            valid_utf8(s.take(n as int)) && pieces_valid(s.skip(n as int))
        } else {
            false
        }
    }
}

/// Two valid encodings in a row are valid, and decode to the two texts in
/// a row.
pub proof fn lemma_decode_concat(a: Seq<u8>, b: Seq<u8>)
    requires
        valid_utf8(a),
        valid_utf8(b),
    ensures
        valid_utf8(a + b),
        decode_utf8(a + b) == decode_utf8(a) + decode_utf8(b),
    decreases a.len(),
{
    valid_utf8_concat(a, b);
    if a.len() == 0 {
        assert(a + b =~= b);
        assert(decode_utf8(a) =~= Seq::<char>::empty());
    } else {
        let rest = pop_first_scalar(a);
        assert(pop_first_scalar(a + b) =~= rest + b);
        lemma_decode_concat(rest, b);
        assert(decode_utf8(a + b) =~= seq![decode_first_scalar(a + b) as char] + decode_utf8(
            rest + b,
        ));
    }
}

/// Where the first `i` bytes are valid UTF-8 and a well-formed character
/// follows, the bytes up to the end of that character are valid too, and
/// decode to one character more.
pub proof fn lemma_decode_one(bytes: Seq<u8>, i: int)
    requires
        0 <= i <= bytes.len(),
        valid_utf8(bytes.take(i)),
        valid_first_scalar(bytes.skip(i)),
    ensures
        ({
            let n = length_of_first_scalar(bytes.skip(i));
            &&& 1 <= n <= 4
            &&& i + n <= bytes.len()
            &&& valid_utf8(bytes.take(i + n))
            &&& decode_utf8(bytes.take(i + n)) == decode_utf8(bytes.take(i)).push(
                decode_first_scalar(bytes.skip(i)) as char,
            )
        }),
{
    let n = length_of_first_scalar(bytes.skip(i));
    let one = bytes.subrange(i, i + n);
    assert(valid_first_scalar(one));
    assert(pop_first_scalar(one) =~= Seq::<u8>::empty());
    reveal_with_fuel(valid_utf8, 2);
    reveal_with_fuel(decode_utf8, 2);
    assert(valid_utf8(one));
    assert(decode_utf8(one) =~= seq![decode_first_scalar(bytes.skip(i)) as char]);
    lemma_decode_concat(bytes.take(i), one);
    assert(bytes.take(i) + one =~= bytes.take(i + n));
}

/// What the encoding of one character looks like: it is valid UTF-8 and
/// decodes to that character; exactly its first byte begins a character;
/// and it holds a line feed byte only where it is the line feed itself.
pub proof fn lemma_one_char(e: Seq<u8>)
    requires
        valid_first_scalar(e),
        e.len() == length_of_first_scalar(e),
    ensures
        valid_utf8(e),
        decode_utf8(e) == seq![decode_first_scalar(e) as char],
        char_starts(e) == 1,
        (decode_first_scalar(e) as char == '\n') <==> e == seq![LINE_FEED],
        decode_first_scalar(e) as char != '\n' ==> forall|i: int|
            0 <= i < e.len() ==> e[i] != LINE_FEED,
{
    reveal_with_fuel(valid_utf8, 2);
    reveal_with_fuel(decode_utf8, 2);
    reveal_with_fuel(char_starts, 5);
    assert(pop_first_scalar(e) =~= Seq::<u8>::empty());
    assert(decode_utf8(e) =~= seq![decode_first_scalar(e) as char]);
    let point = decode_first_scalar(e);
    let b1 = e[0];
    if e.len() == 1 {
        assert(b1 & 0x7F == b1) by (bit_vector)
            requires
                b1 <= 0x7f,
        ;
        assert(point == b1);
        assert((e == seq![LINE_FEED]) <==> b1 == LINE_FEED) by {
            if b1 == LINE_FEED {
                assert(e =~= seq![LINE_FEED]);
            }
        }
    } else if e.len() == 2 {
        let b2 = e[1];
        assert((((b1 & 0x1F) as u32) << 6) | ((b2 & 0x3f) as u32) <= 0x7ff) by (bit_vector);
        assert(0x80 <= point <= 0x7ff);
    } else if e.len() == 3 {
        let b2 = e[1];
        let b3 = e[2];
        assert((((b1 & 0x0F) as u32) << 12) | (((b2 & 0x3f) as u32) << 6) | ((b3 & 0x3f) as u32)
            <= 0xffff) by (bit_vector);
        assert(0x800 <= point <= 0xffff);
    } else {
        assert(0x10000 <= point <= 0x10ffff);
    }
}

/// Valid UTF-8 counted by its bytes gives what its decoded text gives:
/// the line feed bytes are the line feed characters, the bytes that begin
/// a character are as many as the characters, and lines measured by such
/// bytes are as long as lines measured in characters.
pub proof fn lemma_text_matches_bytes(s: Seq<u8>)
    requires
        valid_utf8(s),
    ensures
        text_newlines(decode_utf8(s)) == newlines(s),
        decode_utf8(s).len() == char_starts(s),
        text_open_line(decode_utf8(s)) == open_line(s, true),
        text_longest_line(decode_utf8(s)) == longest_line(s, true),
{
    reveal_with_fuel(decode_utf8, 1);
    let nothing = Seq::<u8>::empty();
    assert(decode_utf8(nothing) =~= Seq::<char>::empty());
    lemma_text_matches_bytes_from(nothing, s);
    assert(nothing + s =~= s);
}

/// The step behind `lemma_text_matches_bytes`: what holds of `a` goes on
/// to hold when the valid encoding `b` is put behind it.
proof fn lemma_text_matches_bytes_from(a: Seq<u8>, b: Seq<u8>)
    requires
        valid_utf8(a),
        valid_utf8(b),
        text_newlines(decode_utf8(a)) == newlines(a),
        decode_utf8(a).len() == char_starts(a),
        text_open_line(decode_utf8(a)) == open_line(a, true),
        text_longest_line(decode_utf8(a)) == longest_line(a, true),
    ensures
        valid_utf8(a + b),
        text_newlines(decode_utf8(a + b)) == newlines(a + b),
        decode_utf8(a + b).len() == char_starts(a + b),
        text_open_line(decode_utf8(a + b)) == open_line(a + b, true),
        text_longest_line(decode_utf8(a + b)) == longest_line(a + b, true),
    decreases b.len(),
{
    valid_utf8_concat(a, b);
    if b.len() == 0 {
        assert(a + b =~= a);
    } else {
        let n = length_of_first_scalar(b);
        let one = b.take(n);
        let rest = pop_first_scalar(b);
        let c = decode_first_scalar(b) as char;
        assert(valid_first_scalar(one));
        assert(decode_first_scalar(one) == decode_first_scalar(b));
        lemma_one_char(one);
        lemma_decode_concat(a, one);
        let text = decode_utf8(a);
        assert(decode_utf8(a + one) =~= text.push(c));
        assert(text.push(c).drop_last() =~= text);
        lemma_count_byte_concat(a, one, LINE_FEED);
        lemma_char_starts_concat(a, one);
        if c == '\n' {
            assert(a + one =~= a.push(LINE_FEED));
            lemma_line_end(a, true);
            reveal_with_fuel(count_byte, 2);
        } else {
            lemma_line_piece(a, one, true);
        }
        lemma_text_matches_bytes_from(a + one, rest);
        assert((a + one) + rest =~= a + b);
    }
}

/// An input whose pieces are each valid UTF-8 is valid UTF-8 as a whole.
pub proof fn lemma_pieces_valid_is_valid(s: Seq<u8>)
    requires
        pieces_valid(s),
    ensures
        valid_utf8(s),
    decreases s.len(),
{
    if s.len() > 0 {
        let n = piece_len(s, READ_SIZE as nat) as int;
        lemma_pieces_valid_is_valid(s.skip(n));
        valid_utf8_concat(s.take(n), s.skip(n));
        assert(s.take(n) + s.skip(n) =~= s);
    }
}

/// No number counted in a text exceeds the number of its characters.
pub proof fn lemma_text_bounded_by_len(t: Seq<char>)
    ensures
        text_newlines(t) <= t.len(),
        text_words(t) <= t.len(),
        text_open_line(t) <= t.len(),
        text_longest_line(t) <= t.len(),
    decreases t.len(),
{
    if t.len() > 0 {
        lemma_text_bounded_by_len(t.drop_last());
    }
}

/// No number counted in the text of valid UTF-8 exceeds the number of
/// bytes.
pub proof fn lemma_decoded_bounded_by_len(s: Seq<u8>)
    requires
        valid_utf8(s),
    ensures
        decode_utf8(s).len() <= s.len(),
        text_newlines(decode_utf8(s)) <= s.len(),
        text_words(decode_utf8(s)) <= s.len(),
        text_open_line(decode_utf8(s)) <= s.len(),
        text_longest_line(decode_utf8(s)) <= s.len(),
{
    lemma_text_matches_bytes(s);
    lemma_bounded_by_len(s, LINE_FEED, true);
    lemma_text_bounded_by_len(decode_utf8(s));
}

/// True when a line feed stands among the bytes `from..to` of `s`.
pub open spec fn has_line_feed(s: Seq<u8>, from: int, to: int) -> bool {
    exists|j: int| from <= j < to && s[j] == LINE_FEED
}

/// True when no line of `s`, with its line feed, is longer than one read:
/// when a line feed stands among any `READ_SIZE` bytes in a row.
pub open spec fn lines_fit_a_read(s: Seq<u8>) -> bool {
    forall|i: int|
        0 <= i && i + READ_SIZE <= s.len() ==> #[trigger] has_line_feed(s, i, i + READ_SIZE)
}

/// A piece ends with the first line feed, or holds none and ends where the
/// bytes end or the limit is reached.
pub proof fn lemma_piece_ends(s: Seq<u8>, limit: nat)
    ensures
        ({
            let n = piece_len(s, limit) as int;
            &&& n <= s.len()
            &&& n <= limit
            &&& forall|j: int| 0 <= j < n - 1 ==> s[j] != LINE_FEED
            &&& n == 0 || s[n - 1] == LINE_FEED || (s[n - 1] != LINE_FEED && (n == s.len() || n
                == limit))
            &&& n == 0 ==> s.len() == 0 || limit == 0
        }),
    decreases s.len(),
{
    if s.len() > 0 && limit > 0 && s[0] != LINE_FEED {
        let rest = s.drop_first();
        lemma_piece_ends(rest, (limit - 1) as nat);
        let n = piece_len(s, limit) as int;
        assert forall|j: int| 0 <= j < n - 1 implies s[j] != LINE_FEED by {
            if j > 0 {
                assert(rest[j - 1] != LINE_FEED);
            }
        }
        if n > 1 {
            assert(s[n - 1] == rest[n - 2]);
        }
    }
}

/// Valid UTF-8 can be cut behind any line feed: both parts are valid.
pub proof fn lemma_split_behind_line_feed(s: Seq<u8>, at: int)
    requires
        valid_utf8(s),
        0 <= at < s.len(),
        s[at] == LINE_FEED,
    ensures
        valid_utf8(s.take(at + 1)),
        valid_utf8(s.skip(at + 1)),
    decreases s.len(),
{
    let n = length_of_first_scalar(s);
    let first = s.take(n);
    let rest = pop_first_scalar(s);
    assert(valid_first_scalar(first));
    lemma_one_char(first);
    if at < n {
        assert(n == 1);
        assert(s.skip(at + 1) =~= rest);
    } else {
        lemma_split_behind_line_feed(rest, at - n);
        valid_utf8_concat(first, rest.take(at - n + 1));
        assert(first + rest.take(at - n + 1) =~= s.take(at + 1));
        assert(rest.skip(at - n + 1) =~= s.skip(at + 1));
    }
}

/// The decoding algorithm can count every input that is valid UTF-8 and
/// has no line longer than one read: each of its pieces is valid.
pub proof fn lemma_whole_lines_make_valid_pieces(s: Seq<u8>)
    requires
        valid_utf8(s),
        lines_fit_a_read(s),
    ensures
        pieces_valid(s),
    decreases s.len(),
{
    if s.len() > 0 {
        let n = piece_len(s, READ_SIZE as nat) as int;
        lemma_piece_ends(s, READ_SIZE as nat);
        if s[n - 1] == LINE_FEED {
            lemma_split_behind_line_feed(s, n - 1);
            let rest = s.skip(n);
            assert forall|i: int|
                0 <= i && i + READ_SIZE <= rest.len() implies #[trigger] has_line_feed(
                rest,
                i,
                i + READ_SIZE,
            ) by {
                assert(has_line_feed(s, n + i, n + i + READ_SIZE));
                let j = choose|j: int| n + i <= j < n + i + READ_SIZE && s[j] == LINE_FEED;
                assert(rest[j - n] == LINE_FEED);
            }
            lemma_whole_lines_make_valid_pieces(rest);
        } else {
            if n != s.len() {
                assert(has_line_feed(s, 0, 0 + READ_SIZE));
            }
            assert(s.take(n) =~= s);
            assert(s.skip(n) =~= Seq::<u8>::empty());
            assert(pieces_valid(s.skip(n)));
        }
    }
}

/// True when `s` is ASCII, and each of its bytes separates words as a
/// character exactly where it does as a byte.
pub open spec fn plain_ascii(s: Seq<u8>) -> bool {
    forall|i: int|
        0 <= i < s.len() ==> (#[trigger] s[i]) < 0x80 && is_blank(s[i] as char) == is_space(s[i])
}

/// ASCII bytes are valid UTF-8, and decode to themselves.
pub proof fn lemma_ascii_decodes_to_itself(s: Seq<u8>)
    requires
        forall|i: int| 0 <= i < s.len() ==> (#[trigger] s[i]) < 0x80,
    ensures
        valid_utf8(s),
        decode_utf8(s) == Seq::new(s.len(), |i: int| s[i] as char),
{
    let text = Seq::new(s.len(), |i: int| s[i] as char);
    assert(is_ascii_chars(text));
    is_ascii_chars_encode_utf8(text);
    assert(encode_utf8(text) =~= s);
    encode_utf8_valid_utf8(text);
    encode_utf8_decode_utf8(text);
}

/// On plain ASCII the algorithm that goes by bytes and the algorithm that
/// decodes count the same: lines, words, characters for bytes, and the
/// longest line.
pub proof fn lemma_plain_ascii_counts_agree(s: Seq<u8>)
    requires
        plain_ascii(s),
    ensures
        valid_utf8(s),
        decode_utf8(s).len() == s.len(),
        text_newlines(decode_utf8(s)) == newlines(s),
        text_words(decode_utf8(s)) == words(s),
        text_in_word(decode_utf8(s)) == in_word(s),
        text_open_line(decode_utf8(s)) == open_line(s, false),
        text_longest_line(decode_utf8(s)) == longest_line(s, false),
    decreases s.len(),
{
    lemma_ascii_decodes_to_itself(s);
    if s.len() > 0 {
        let before = s.drop_last();
        lemma_plain_ascii_counts_agree(before);
        lemma_ascii_decodes_to_itself(before);
        assert(decode_utf8(s).drop_last() =~= decode_utf8(before));
        assert(decode_utf8(s).last() == s.last() as char);
        assert(s[s.len() - 1] < 0x80);
    }
}

} // verus!
