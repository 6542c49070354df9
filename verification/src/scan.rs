//! Counting while the input arrives, chunk by chunk.
//!
//! A [`Scanner`] is fed the chunks of one input in turn. After each chunk
//! its counts are those of everything fed so far, however the input was cut
//! into chunks.

use crate::count::{CountError, Counts, Strategy, Tally};
use crate::model::{
    char_starts, in_word, is_space, lemma_bounded_by_len, lemma_char_starts_concat,
    lemma_count_byte_concat, lemma_line_end, lemma_line_piece, lemma_no_place_between,
    lists_places, longest_line, newlines, open_line, words, LINE_FEED,
};
use crate::text::{
    lemma_decode_concat, lemma_decode_one, text_in_word, text_open_line, TextCount,
};
use crate::trusted::{
    count_char_starts, count_occurrences, decode_first, find_all, is_whitespace,
};
use vstd::prelude::*;
use vstd::slice::slice_subrange;
use vstd::utf8::{
    decode_utf8, partial_valid_partial_invalid_utf8, utf8_byte_ranges_bitwise, valid_utf8,
};

verus! {

/// The state of a [`Scanner`].
pub struct Scan {
    /// The algorithm at work.
    pub strategy: Strategy,
    /// All bytes fed so far, in order.
    pub seen: Seq<u8>,
    /// What has been counted in them.
    pub counts: Counts,
}

/// Counts one input with one algorithm, a chunk at a time.
pub struct Scanner {
    strategy: Strategy,
    counts: Counts,
    /// Length of the line that is open at the end of what was fed.
    line_len: u64,
    /// Whether what was fed ends inside a word.
    in_word: bool,
    /// The number of characters when the last line was closed.
    line_start: u64,
    seen: Ghost<Seq<u8>>,
}

impl View for Scanner {
    type V = Scan;

    closed spec fn view(&self) -> Scan {
        Scan { strategy: self.strategy, seen: self.seen@, counts: self.counts }
    }
}

impl Scanner {
    /// The length of the line that is open at the end of `s`, in the unit
    /// of the algorithm; 0 for an algorithm that measures no lines.
    spec fn pending_line(strategy: Strategy, s: Seq<u8>) -> nat {
        match strategy {
            Strategy::LinesLongest | Strategy::WordsLinesLongest => open_line(s, false),
            Strategy::CharsLinesLongest => open_line(s, true),
            Strategy::CharsWordsLinesLongest => text_open_line(decode_utf8(s)),
            _ => 0,
        }
    }

    /// Whether `s` ends inside a word, for an algorithm that counts words.
    spec fn pending_word(strategy: Strategy, s: Seq<u8>) -> bool {
        match strategy {
            Strategy::WordsLinesLongest => in_word(s),
            Strategy::CharsWordsLinesLongest => text_in_word(decode_utf8(s)),
            _ => false,
        }
    }

    /// What the scanner remembers between chunks is right for what was fed.
    pub closed spec fn carries_over(self) -> bool {
        &&& self.in_word == Self::pending_word(self.strategy, self.seen@)
        &&& if self.strategy == Strategy::CharsLinesLongest {
            &&& self.line_len == 0
            &&& self.line_start <= self.counts.chars
            &&& self.counts.chars - self.line_start == open_line(self.seen@, true)
        } else {
            &&& self.line_start == 0
            &&& self.line_len == Self::pending_line(self.strategy, self.seen@)
        }
        &&& self.counts.lines <= self.counts.bytes
        &&& self.counts.words <= self.counts.bytes
        &&& self.counts.chars <= self.counts.bytes
        &&& self.counts.longest_line <= self.counts.bytes
        &&& self.line_len <= self.counts.bytes
    }

    /// What holds of a scanner between two chunks: its counts are those of
    /// all bytes fed so far, and for the decoding algorithm these bytes are
    /// valid UTF-8.
    pub open spec fn wf(self) -> bool {
        &&& self@.counts.tally() == self@.strategy.tally(self@.seen)
        &&& self@.strategy.decodes() ==> valid_utf8(self@.seen)
        &&& self.carries_over()
    }

    /// A scanner for one input, labelled `path`, with nothing fed.
    pub fn new(strategy: Strategy, path: Option<String>) -> (r: Scanner)
        ensures
            r.wf(),
            r@.strategy == strategy,
            r@.seen == Seq::<u8>::empty(),
            r@.counts.path == path,
            r@.counts.tally() == Tally::zero(),
    {
        let r = Scanner {
            strategy,
            counts: Counts { path, lines: 0, words: 0, bytes: 0, chars: 0, longest_line: 0 },
            line_len: 0,
            in_word: false,
            line_start: 0,
            seen: Ghost(Seq::empty()),
        };
        proof {
            reveal_with_fuel(decode_utf8, 1);
            assert(valid_utf8(r.seen@));
            assert(decode_utf8(r.seen@) =~= Seq::<char>::empty());
        }
        r
    }

    /// The counts of all that was fed so far.
    pub fn counts(&self) -> (r: &Counts)
        ensures
            *r == self@.counts,
    {
        &self.counts
    }

    /// The algorithm at work.
    pub fn strategy(&self) -> (r: Strategy)
        ensures
            r == self@.strategy,
    {
        self.strategy
    }

    /// Ends the scan and gives its counts.
    pub fn finish(self) -> (r: Counts)
        ensures
            r == self@.counts,
    {
        self.counts
    }

    /// Counts one more chunk. The decoding algorithm refuses a chunk that
    /// is not valid UTF-8 and then leaves the scanner as it was; every
    /// other chunk is taken in.
    pub fn feed(&mut self, chunk: &[u8]) -> (r: Result<(), CountError>)
        requires
            old(self).wf(),
            old(self)@.seen.len() + chunk@.len() <= u64::MAX,
        ensures
            final(self).wf(),
            final(self)@.strategy == old(self)@.strategy,
            final(self)@.counts.path == old(self)@.counts.path,
            old(self)@.strategy.decodes() && !valid_utf8(chunk@) ==> r == Err::<(), CountError>(
                CountError::InvalidText,
            ) && final(self)@ == old(self)@,
            !(old(self)@.strategy.decodes() && !valid_utf8(chunk@)) ==> r is Ok && final(self)@.seen
                == old(self)@.seen + chunk@,
    {
        match self.strategy {
            Strategy::BytesOnly => {
                self.feed_bytes(chunk);
                Ok(())
            },
            Strategy::LinesOnly => {
                self.feed_lines(chunk);
                Ok(())
            },
            Strategy::CharsOnly => {
                self.feed_chars(chunk);
                Ok(())
            },
            Strategy::LinesLongest => {
                self.feed_lines_longest(chunk);
                Ok(())
            },
            Strategy::WordsLinesLongest => {
                self.feed_words(chunk);
                Ok(())
            },
            Strategy::CharsLinesLongest => {
                self.feed_char_lines(chunk);
                Ok(())
            },
            Strategy::CharsWordsLinesLongest => self.feed_text(chunk),
        }
    }

    fn feed_bytes(&mut self, chunk: &[u8])
        requires
            old(self).wf(),
            old(self)@.strategy == Strategy::BytesOnly,
            old(self)@.seen.len() + chunk@.len() <= u64::MAX,
        ensures
            final(self).wf(),
            final(self)@.strategy == old(self)@.strategy,
            final(self)@.counts.path == old(self)@.counts.path,
            final(self)@.seen == old(self)@.seen + chunk@,
    {
        self.counts.bytes += chunk.len() as u64;
        self.seen = Ghost(self.seen@ + chunk@);
    }

    fn feed_lines(&mut self, chunk: &[u8])
        requires
            old(self).wf(),
            old(self)@.strategy == Strategy::LinesOnly,
            old(self)@.seen.len() + chunk@.len() <= u64::MAX,
        ensures
            final(self).wf(),
            final(self)@.strategy == old(self)@.strategy,
            final(self)@.counts.path == old(self)@.counts.path,
            final(self)@.seen == old(self)@.seen + chunk@,
    {
        let found = count_occurrences(chunk, LINE_FEED);
        proof {
            lemma_count_byte_concat(self.seen@, chunk@, LINE_FEED);
            lemma_bounded_by_len(chunk@, LINE_FEED, false);
        }
        self.counts.lines += found as u64;
        self.counts.bytes += chunk.len() as u64;
        self.seen = Ghost(self.seen@ + chunk@);
    }

    fn feed_chars(&mut self, chunk: &[u8])
        requires
            old(self).wf(),
            old(self)@.strategy == Strategy::CharsOnly,
            old(self)@.seen.len() + chunk@.len() <= u64::MAX,
        ensures
            final(self).wf(),
            final(self)@.strategy == old(self)@.strategy,
            final(self)@.counts.path == old(self)@.counts.path,
            final(self)@.seen == old(self)@.seen + chunk@,
    {
        let found = count_char_starts(chunk);
        proof {
            lemma_char_starts_concat(self.seen@, chunk@);
            lemma_bounded_by_len(chunk@, LINE_FEED, false);
        }
        self.counts.chars += found as u64;
        self.counts.bytes += chunk.len() as u64;
        self.seen = Ghost(self.seen@ + chunk@);
    }

    fn feed_lines_longest(&mut self, chunk: &[u8])
        requires
            old(self).wf(),
            old(self)@.strategy == Strategy::LinesLongest,
            old(self)@.seen.len() + chunk@.len() <= u64::MAX,
        ensures
            final(self).wf(),
            final(self)@.strategy == old(self)@.strategy,
            final(self)@.counts.path == old(self)@.counts.path,
            final(self)@.seen == old(self)@.seen + chunk@,
    {
        let found = find_all(LINE_FEED, chunk);
        let len: usize = chunk.len();
        let ghost seen = self.seen@;
        let mut start: usize = 0;
        let mut k: usize = 0;
        while k < found.len()
            invariant
                lists_places(found@, LINE_FEED, chunk@),
                len == chunk@.len(),
                k <= found.len(),
                start <= chunk@.len(),
                start == (if k == 0 {
                    0
                } else {
                    found[k - 1] + 1
                }),
                seen.len() + chunk@.len() <= u64::MAX,
                self.strategy == Strategy::LinesLongest,
                self.counts.path == old(self).counts.path,
                self.seen@ == seen,
                self.counts.bytes == seen.len(),
                self.counts.words == 0,
                self.counts.chars == 0,
                !self.in_word,
                self.line_start == 0,
                self.counts.lines == newlines(seen + chunk@.take(start as int)),
                self.counts.longest_line == longest_line(seen + chunk@.take(start as int), false),
                self.line_len == open_line(seen + chunk@.take(start as int), false),
            decreases found.len() - k,
        {
            let pos = found[k];
            proof {
                let p = seen + chunk@.take(start as int);
                let piece = chunk@.subrange(start as int, pos as int);
                assert(found[k as int] < chunk@.len());
                if k > 0 {
                    assert(found[k - 1] < found[k as int]);
                }
                assert forall|i: int| 0 <= i < piece.len() implies piece[i] != LINE_FEED by {
                    lemma_no_place_between(found@, LINE_FEED, chunk@, k as int, start + i);
                }
                lemma_line_piece(p, piece, false);
                lemma_line_end(p + piece, false);
                assert(p + piece =~= seen + chunk@.take(pos as int));
                assert((p + piece).push(LINE_FEED) =~= seen + chunk@.take(pos + 1));
                lemma_bounded_by_len(p + piece, LINE_FEED, false);
                lemma_bounded_by_len(seen + chunk@.take(pos + 1), LINE_FEED, false);
            }
            self.line_len += (pos - start) as u64;
            if self.counts.longest_line < self.line_len {
                self.counts.longest_line = self.line_len;
            }
            self.line_len = 0;
            self.counts.lines += 1;
            start = pos + 1;
            k += 1;
        }
        proof {
            let p = seen + chunk@.take(start as int);
            let piece = chunk@.subrange(start as int, chunk@.len() as int);
            assert forall|i: int| 0 <= i < piece.len() implies piece[i] != LINE_FEED by {
                lemma_no_place_between(found@, LINE_FEED, chunk@, k as int, start + i);
            }
            lemma_line_piece(p, piece, false);
            assert(p + piece =~= seen + chunk@);
            lemma_bounded_by_len(seen + chunk@, LINE_FEED, false);
        }
        self.line_len += (len - start) as u64;
        self.counts.bytes += len as u64;
        self.seen = Ghost(seen + chunk@);
    }

    fn feed_words(&mut self, chunk: &[u8])
        requires
            old(self).wf(),
            old(self)@.strategy == Strategy::WordsLinesLongest,
            old(self)@.seen.len() + chunk@.len() <= u64::MAX,
        ensures
            final(self).wf(),
            final(self)@.strategy == old(self)@.strategy,
            final(self)@.counts.path == old(self)@.counts.path,
            final(self)@.seen == old(self)@.seen + chunk@,
    {
        let ghost seen = self.seen@;
        let mut i: usize = 0;
        assert(seen + chunk@.take(0) =~= seen);
        while i < chunk.len()
            invariant
                i <= chunk@.len(),
                seen.len() + chunk@.len() <= u64::MAX,
                self.strategy == Strategy::WordsLinesLongest,
                self.counts.path == old(self).counts.path,
                self.seen@ == seen,
                self.counts.bytes == seen.len(),
                self.counts.chars == 0,
                self.line_start == 0,
                self.counts.lines == newlines(seen + chunk@.take(i as int)),
                self.counts.words == words(seen + chunk@.take(i as int)),
                self.counts.longest_line == longest_line(seen + chunk@.take(i as int), false),
                self.line_len == open_line(seen + chunk@.take(i as int), false),
                self.in_word == in_word(seen + chunk@.take(i as int)),
            decreases chunk@.len() - i,
        {
            let b = chunk[i];
            proof {
                let p = seen + chunk@.take(i as int);
                assert(seen + chunk@.take(i + 1) =~= p.push(b));
                assert(p.push(b).drop_last() =~= p);
                lemma_bounded_by_len(p.push(b), LINE_FEED, false);
            }
            if is_space_byte(b) {
                self.in_word = false;
                if b == LINE_FEED {
                    if self.counts.longest_line < self.line_len {
                        self.counts.longest_line = self.line_len;
                    }
                    self.line_len = 0;
                    self.counts.lines += 1;
                } else {
                    self.line_len += 1;
                }
            } else {
                if !self.in_word {
                    self.counts.words += 1;
                }
                self.in_word = true;
                self.line_len += 1;
            }
            i += 1;
        }
        proof {
            assert(chunk@.take(i as int) =~= chunk@);
            lemma_bounded_by_len(seen + chunk@, LINE_FEED, false);
        }
        self.counts.bytes += chunk.len() as u64;
        self.seen = Ghost(seen + chunk@);
    }

    fn feed_char_lines(&mut self, chunk: &[u8])
        requires
            old(self).wf(),
            old(self)@.strategy == Strategy::CharsLinesLongest,
            old(self)@.seen.len() + chunk@.len() <= u64::MAX,
        ensures
            final(self).wf(),
            final(self)@.strategy == old(self)@.strategy,
            final(self)@.counts.path == old(self)@.counts.path,
            final(self)@.seen == old(self)@.seen + chunk@,
    {
        let ghost seen = self.seen@;
        let mut i: usize = 0;
        assert(seen + chunk@.take(0) =~= seen);
        while i < chunk.len()
            invariant
                i <= chunk@.len(),
                seen.len() + chunk@.len() <= u64::MAX,
                self.strategy == Strategy::CharsLinesLongest,
                self.counts.path == old(self).counts.path,
                self.seen@ == seen,
                self.counts.bytes == seen.len(),
                self.counts.words == 0,
                !self.in_word,
                self.line_len == 0,
                self.counts.lines == newlines(seen + chunk@.take(i as int)),
                self.counts.chars == char_starts(seen + chunk@.take(i as int)),
                self.counts.longest_line == longest_line(seen + chunk@.take(i as int), true),
                self.line_start <= self.counts.chars,
                self.counts.chars - self.line_start == open_line(
                    seen + chunk@.take(i as int),
                    true,
                ),
            decreases chunk@.len() - i,
        {
            let b = chunk[i];
            proof {
                let p = seen + chunk@.take(i as int);
                assert(seen + chunk@.take(i + 1) =~= p.push(b));
                assert(p.push(b).drop_last() =~= p);
                lemma_bounded_by_len(p.push(b), LINE_FEED, true);
                utf8_byte_ranges_bitwise(b);
            }
            if (b & 0xc0) != 0x80 {
                self.counts.chars += 1;
                if b == LINE_FEED {
                    let line_len: u64 = (self.counts.chars - self.line_start) - 1;
                    self.line_start = self.counts.chars;
                    if self.counts.longest_line < line_len {
                        self.counts.longest_line = line_len;
                    }
                    self.counts.lines += 1;
                }
            }
            i += 1;
        }
        proof {
            assert(chunk@.take(i as int) =~= chunk@);
            lemma_bounded_by_len(seen + chunk@, LINE_FEED, true);
        }
        self.counts.bytes += chunk.len() as u64;
        self.seen = Ghost(seen + chunk@);
    }

    fn feed_text(&mut self, chunk: &[u8]) -> (r: Result<(), CountError>)
        requires
            old(self).wf(),
            old(self)@.strategy == Strategy::CharsWordsLinesLongest,
            old(self)@.seen.len() + chunk@.len() <= u64::MAX,
        ensures
            final(self).wf(),
            final(self)@.strategy == old(self)@.strategy,
            final(self)@.counts.path == old(self)@.counts.path,
            !valid_utf8(chunk@) ==> r == Err::<(), CountError>(CountError::InvalidText)
                && final(self)@ == old(self)@,
            valid_utf8(chunk@) ==> r is Ok && final(self)@.seen == old(self)@.seen + chunk@,
    {
        let ghost seen = self.seen@;
        let ghost base = decode_utf8(seen);
        let mut run = TextCount {
            lines: self.counts.lines,
            words: self.counts.words,
            chars: self.counts.chars,
            longest_line: self.counts.longest_line,
            line_len: self.line_len,
            in_word: self.in_word,
        };
        let mut i: usize = 0;
        proof {
            reveal_with_fuel(decode_utf8, 1);
            assert(valid_utf8(chunk@.take(0)));
            assert(base + decode_utf8(chunk@.take(0)) =~= base);
        }
        while i < chunk.len()
            invariant
                i <= chunk@.len(),
                seen.len() + chunk@.len() <= u64::MAX,
                valid_utf8(chunk@.take(i as int)),
                *self == *old(self),
                self.wf(),
                self.counts.bytes == seen.len(),
                run.counts(base + decode_utf8(chunk@.take(i as int))),
                run.lines <= seen.len() + i,
                run.words <= seen.len() + i,
                run.chars <= seen.len() + i,
                run.longest_line <= seen.len() + i,
                run.line_len <= seen.len() + i,
            decreases chunk@.len() - i,
        {
            let rest = slice_subrange(chunk, i, chunk.len());
            let (got, n) = decode_first(rest);
            match got {
                None => {
                    proof {
                        assert(!valid_utf8(chunk@.subrange(i as int, chunk@.len() as int)));
                        partial_valid_partial_invalid_utf8(chunk@, i as int);
                    }
                    return Err(CountError::InvalidText);
                },
                Some(c) => {
                    let white = is_whitespace(c);
                    proof {
                        let t = base + decode_utf8(chunk@.take(i as int));
                        lemma_decode_one(chunk@, i as int);
                        assert(base + decode_utf8(chunk@.take(i + n)) =~= t.push(c));
                        run.lemma_with_counts_one_more(t, c);
                    }
                    run.push(c, white);
                    i += n;
                },
            }
        }
        proof {
            assert(chunk@.take(i as int) =~= chunk@);
            lemma_decode_concat(seen, chunk@);
        }
        self.counts.lines = run.lines;
        self.counts.words = run.words;
        self.counts.chars = run.chars;
        self.counts.longest_line = run.longest_line;
        self.counts.bytes += chunk.len() as u64;
        self.line_len = run.line_len;
        self.in_word = run.in_word;
        self.seen = Ghost(seen + chunk@);
        Ok(())
    }
}

/// Tells whether `b` separates words.
pub fn is_space_byte(b: u8) -> (r: bool)
    ensures
        r == is_space(b),
{
    b == 0x20 || b == 0x09 || b == 0x0A || b == 0x0C || b == 0x0D
}

/// Where an input is cut into chunks makes no difference: two scanners of
/// the same algorithm that were fed the same bytes hold the same counts.
pub proof fn lemma_cuts_are_immaterial(p: Scanner, q: Scanner)
    requires
        p.wf(),
        q.wf(),
        p@.strategy == q@.strategy,
        p@.seen == q@.seen,
    ensures
        p@.counts.tally() == q@.counts.tally(),
{
}

} // verus!
