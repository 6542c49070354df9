//! The record of what was counted in one input, and how records combine.

use crate::args::Opt;
use crate::model::{
    char_starts, count_byte, lemma_bounded_by_len, longest_line, newlines, words, LINE_FEED,
};
use crate::render::{column, push_column};
use crate::scan::Scanner;
use crate::text::{
    lemma_decoded_bounded_by_len, lemma_piece_len, lemma_pieces_valid_is_valid,
    lemma_plain_ascii_counts_agree, lemma_text_matches_bytes, piece_at, pieces_valid,
    plain_ascii, text_longest_line, text_newlines, text_words, READ_SIZE,
};
use vstd::prelude::*;
use vstd::slice::slice_subrange;
use vstd::std_specs::convert::FromSpecImpl;
use vstd::string::*;
use vstd::utf8::{decode_utf8, valid_utf8};

verus! {

/// The five numbers of a record, as mathematical integers.
pub struct Tally {
    pub lines: nat,
    pub words: nat,
    pub bytes: nat,
    pub chars: nat,
    pub longest_line: nat,
}

impl Tally {
    /// Nothing counted.
    pub open spec fn zero() -> Tally {
        Tally { lines: 0, words: 0, bytes: 0, chars: 0, longest_line: 0 }
    }

    /// Two tallies taken together: lines, words, bytes and characters add
    /// up; the longest line is the longer of the two.
    pub open spec fn plus(self, other: Tally) -> Tally {
        Tally {
            lines: self.lines + other.lines,
            words: self.words + other.words,
            bytes: self.bytes + other.bytes,
            chars: self.chars + other.chars,
            longest_line: if self.longest_line >= other.longest_line {
                self.longest_line
            } else {
                other.longest_line
            },
        }
    }

    /// True when each number fits a 64-bit counter.
    pub open spec fn fits(self) -> bool {
        &&& self.lines <= u64::MAX
        &&& self.words <= u64::MAX
        &&& self.bytes <= u64::MAX
        &&& self.chars <= u64::MAX
        &&& self.longest_line <= u64::MAX
    }

    /// Tallies may be taken together in any order and any grouping, and
    /// the empty tally changes nothing.
    pub proof fn lemma_plus_is_a_merge(a: Tally, b: Tally, c: Tally)
        ensures
            a.plus(b) == b.plus(a),
            a.plus(b).plus(c) == a.plus(b.plus(c)),
            a.plus(Tally::zero()) == a,
            a.plus(b).longest_line == a.longest_line || a.plus(b).longest_line == b.longest_line,
            a.plus(b).longest_line >= a.longest_line,
            a.plus(b).longest_line >= b.longest_line,
    {
    }
}

/// What has been counted in one input, or in all inputs together.
#[derive(Debug)]
pub struct Counts {
    /// Where the bytes came from; `None` for standard input.
    pub path: Option<String>,
    pub lines: u64,
    pub words: u64,
    pub bytes: u64,
    pub chars: u64,
    pub longest_line: u64,
}

impl Counts {
    /// The numbers of this record.
    pub open spec fn tally(self) -> Tally {
        Tally {
            lines: self.lines as nat,
            words: self.words as nat,
            bytes: self.bytes as nat,
            chars: self.chars as nat,
            longest_line: self.longest_line as nat,
        }
    }

    /// The characters of the label; empty where there is none.
    pub open spec fn label(self) -> Seq<char> {
        match self.path {
            Some(p) => p@,
            None => Seq::empty(),
        }
    }

    /// An empty record for the input named `path`.
    pub fn new(path: &str) -> (r: Counts)
        ensures
            r.path is Some,
            r.label() == path@,
            r.tally() == Tally::zero(),
    {
        Counts {
            path: Some(String::from_str(path)),
            lines: 0,
            words: 0,
            bytes: 0,
            chars: 0,
            longest_line: 0,
        }
    }

    /// True when `other` can be folded into `self` without a counter
    /// running over.
    pub open spec fn can_add(self, other: Counts) -> bool {
        self.tally().plus(other.tally()).fits()
    }

    /// Tells whether `other` can be folded into `self`.
    pub fn has_room_for(&self, other: &Counts) -> (r: bool)
        ensures
            r == self.can_add(*other),
    {
        other.lines <= u64::MAX - self.lines && other.words <= u64::MAX - self.words
            && other.bytes <= u64::MAX - self.bytes && other.chars <= u64::MAX - self.chars
    }

    /// Folds `other` into `self`: lines, words, bytes and characters are
    /// summed, the longest line becomes the longer of the two, and the label
    /// stays.
    pub fn add(&mut self, other: &Counts)
        requires
            old(self).can_add(*other),
        ensures
            final(self).tally() == old(self).tally().plus(other.tally()),
            final(self).path == old(self).path,
    {
        self.lines += other.lines;
        self.words += other.words;
        self.bytes += other.bytes;
        self.chars += other.chars;
        if self.longest_line < other.longest_line {
            self.longest_line = other.longest_line;
        }
    }

    /// The output line of this record for the metrics that `opt` asks for:
    /// the columns for lines, words, characters or else bytes, and longest
    /// line, in this order, then the label if there is one, then a line feed.
    pub open spec fn line(self, opt: Opt) -> Seq<char> {
        (if opt.lines {
            column(self.lines as nat)
        } else {
            Seq::empty()
        }) + (if opt.words {
            column(self.words as nat)
        } else {
            Seq::empty()
        }) + (if opt.chars {
            column(self.chars as nat)
        } else if opt.bytes {
            column(self.bytes as nat)
        } else {
            Seq::empty()
        }) + (if opt.longest_line {
            column(self.longest_line as nat)
        } else {
            Seq::empty()
        }) + (match self.path {
            Some(p) => seq![' '] + p@,
            None => Seq::empty(),
        }) + seq!['\n']
    }

    /// Writes the output line of this record into a string.
    pub fn print(&self, opt: &Opt) -> (out: String)
        ensures
            out@ == self.line(*opt),
    {
        let mut out = String::new();
        if opt.lines {
            push_column(&mut out, self.lines);
        }
        if opt.words {
            push_column(&mut out, self.words);
        }
        if opt.chars {
            push_column(&mut out, self.chars);
        } else if opt.bytes {
            push_column(&mut out, self.bytes);
        }
        if opt.longest_line {
            push_column(&mut out, self.longest_line);
        }
        proof {
            reveal_strlit(" ");
            reveal_strlit("\n");
        }
        match &self.path {
            Some(p) => {
                out.append(" ");
                out.append(p.as_str());
            },
            None => {},
        }
        out.append("\n");
        assert(out@ =~= self.line(*opt));
        out
    }
}

impl Default for Counts {
    fn default() -> (r: Counts)
        ensures
            r.path is None,
            r.tally() == Tally::zero(),
    {
        Counts { path: None, lines: 0, words: 0, bytes: 0, chars: 0, longest_line: 0 }
    }
}

/// What one counting algorithm can produce, and what it costs.
#[derive(Debug, Clone, Copy)]
pub struct Capability {
    /// The cost of the algorithm; a lower rank is cheaper.
    pub rank: u32,
    pub lines: bool,
    pub words: bool,
    pub bytes: bool,
    /// The algorithm counts characters, and measures lines in characters.
    pub chars: bool,
    pub longest_line: bool,
}

impl Capability {
    /// True when an algorithm of this capability serves the request `opt`:
    /// it produces every metric asked for, and where words or the longest
    /// line are asked for, it measures in the unit asked for.
    pub open spec fn compatible(self, opt: Opt) -> bool {
        &&& opt.lines ==> self.lines
        &&& opt.bytes ==> self.bytes
        &&& opt.chars ==> self.chars
        &&& opt.words ==> self.words && self.chars == opt.chars
        &&& opt.longest_line ==> self.longest_line && self.chars == opt.chars
    }

    /// Tells whether an algorithm of this capability serves the request
    /// `opt`.
    pub fn is_compatible(&self, opt: &Opt) -> (r: bool)
        ensures
            r == self.compatible(*opt),
    {
        (!opt.lines || self.lines) && (!opt.bytes || self.bytes) && (!opt.chars || self.chars) && (
        !opt.words || (self.words && self.chars == opt.chars)) && (!opt.longest_line || (
        self.longest_line && self.chars == opt.chars))
    }
}

impl Default for Capability {
    fn default() -> (r: Capability)
        ensures
            r == (Capability {
                rank: 0,
                lines: false,
                words: false,
                bytes: false,
                chars: false,
                longest_line: false,
            }),
    {
        Capability {
            rank: 0,
            lines: false,
            words: false,
            bytes: false,
            chars: false,
            longest_line: false,
        }
    }
}

/// Why counting stopped.
#[derive(Debug, Clone, Copy, PartialEq, Eq, Structural)]
pub enum CountError {
    /// The input holds bytes that are not valid UTF-8 text.
    InvalidText,
}

/// The counting algorithms.
#[derive(Debug, Clone, Copy, PartialEq, Eq, Structural)]
pub enum Strategy {
    /// Counts bytes and looks at none of them.
    BytesOnly,
    /// Counts line feeds.
    LinesOnly,
    /// Counts the bytes that begin a character.
    CharsOnly,
    /// Finds the line feeds and measures the lines between them in bytes.
    LinesLongest,
    /// Goes byte by byte: words between ASCII separators, lines in bytes.
    WordsLinesLongest,
    /// Goes byte by byte: characters by their first bytes, lines in
    /// characters.
    CharsLinesLongest,
    /// Decodes the text: words between Unicode separators, lines in
    /// characters.
    CharsWordsLinesLongest,
}

impl Strategy {
    /// What each algorithm can produce, and its rank.
    pub open spec fn capability(self) -> Capability {
        match self {
            Strategy::BytesOnly => Capability {
                rank: 0,
                lines: false,
                words: false,
                bytes: true,
                chars: false,
                longest_line: false,
            },
            Strategy::LinesOnly => Capability {
                rank: 1,
                lines: true,
                words: false,
                bytes: true,
                chars: false,
                longest_line: false,
            },
            Strategy::CharsOnly => Capability {
                rank: 1,
                lines: false,
                words: false,
                bytes: true,
                chars: true,
                longest_line: false,
            },
            Strategy::LinesLongest => Capability {
                rank: 30,
                lines: true,
                words: false,
                bytes: true,
                chars: false,
                longest_line: true,
            },
            Strategy::WordsLinesLongest => Capability {
                rank: 150,
                lines: true,
                words: true,
                bytes: true,
                chars: false,
                longest_line: true,
            },
            Strategy::CharsLinesLongest => Capability {
                rank: 120,
                lines: true,
                words: false,
                bytes: true,
                chars: true,
                longest_line: true,
            },
            Strategy::CharsWordsLinesLongest => Capability {
                rank: 400,
                lines: true,
                words: true,
                bytes: true,
                chars: true,
                longest_line: true,
            },
        }
    }

    /// True for the algorithm that decodes its input, and so can fail.
    pub open spec fn decodes(self) -> bool {
        self == Strategy::CharsWordsLinesLongest
    }

    /// What the algorithm counts in the input `s`. A metric that the
    /// algorithm does not produce is 0. For the decoding algorithm the
    /// numbers are those of the decoded text, and mean something only where
    /// `s` is valid UTF-8.
    pub open spec fn tally(self, s: Seq<u8>) -> Tally {
        match self {
            Strategy::BytesOnly => Tally {
                lines: 0,
                words: 0,
                bytes: s.len(),
                chars: 0,
                longest_line: 0,
            },
            Strategy::LinesOnly => Tally {
                lines: newlines(s),
                words: 0,
                bytes: s.len(),
                chars: 0,
                longest_line: 0,
            },
            Strategy::CharsOnly => Tally {
                lines: 0,
                words: 0,
                bytes: s.len(),
                chars: char_starts(s),
                longest_line: 0,
            },
            Strategy::LinesLongest => Tally {
                lines: newlines(s),
                words: 0,
                bytes: s.len(),
                chars: 0,
                longest_line: longest_line(s, false),
            },
            Strategy::WordsLinesLongest => Tally {
                lines: newlines(s),
                words: words(s),
                bytes: s.len(),
                chars: 0,
                longest_line: longest_line(s, false),
            },
            Strategy::CharsLinesLongest => Tally {
                lines: newlines(s),
                words: 0,
                bytes: s.len(),
                chars: char_starts(s),
                longest_line: longest_line(s, true),
            },
            Strategy::CharsWordsLinesLongest => {
                let text = decode_utf8(s);
                Tally {
                    lines: text_newlines(text),
                    words: text_words(text),
                    bytes: s.len(),
                    chars: text.len(),
                    longest_line: text_longest_line(text),
                }
            },
        }
    }

    /// True when the algorithm can count the whole input `s`: always, but
    /// for the decoding algorithm, which needs every piece of `s` to be
    /// valid UTF-8.
    pub open spec fn accepts(self, s: Seq<u8>) -> bool {
        self.decodes() ==> pieces_valid(s)
    }

    /// What counting the whole input `s` gives: the tally, or nothing
    /// where the algorithm cannot count `s`.
    pub open spec fn counted(self, s: Seq<u8>) -> Option<Tally> {
        if self.accepts(s) {
            Some(self.tally(s))
        } else {
            None
        }
    }
}

impl Strategy {
    /// True when the algorithm serves the request `opt`.
    pub open spec fn usable(self, opt: Opt) -> bool {
        self.capability().compatible(opt)
    }

    /// True when the algorithm serves the request `opt` and is cheaper than
    /// every other algorithm that does.
    pub open spec fn cheapest(self, opt: Opt) -> bool {
        &&& self.usable(opt)
        &&& forall|other: Strategy|
            #[trigger] other.usable(opt) && other != self ==> self.capability().rank
                < other.capability().rank
    }

    /// The algorithm for the request `opt`.
    pub open spec fn select(opt: Opt) -> Strategy {
        if opt.words {
            if opt.chars {
                Strategy::CharsWordsLinesLongest
            } else {
                Strategy::WordsLinesLongest
            }
        } else if opt.longest_line {
            if opt.chars {
                Strategy::CharsLinesLongest
            } else {
                Strategy::LinesLongest
            }
        } else if opt.lines {
            if opt.chars {
                Strategy::CharsLinesLongest
            } else {
                Strategy::LinesOnly
            }
        } else if opt.chars {
            Strategy::CharsOnly
        } else {
            Strategy::BytesOnly
        }
    }

    /// For every request the selected algorithm serves it and is the
    /// cheapest to do so; no other algorithm is.
    pub proof fn lemma_select_is_cheapest(opt: Opt)
        ensures
            Strategy::select(opt).cheapest(opt),
            forall|other: Strategy|
                #[trigger] other.cheapest(opt) ==> other == Strategy::select(opt),
    {
        let chosen = Strategy::select(opt);
        assert forall|other: Strategy| #[trigger] other.cheapest(opt) implies other == chosen by {
            assert(chosen.usable(opt));
        }
    }

    /// The choice of the algorithm rests on the five requested metrics
    /// alone: two requests that ask for the same metrics get the same
    /// algorithm, whatever else they hold.
    pub proof fn lemma_select_rests_on_metrics(a: Opt, b: Opt)
        requires
            a.lines == b.lines,
            a.words == b.words,
            a.bytes == b.bytes,
            a.chars == b.chars,
            a.longest_line == b.longest_line,
        ensures
            Strategy::select(a) == Strategy::select(b),
    {
    }

    /// Every algorithm counts the bytes exactly: the number of bytes in its
    /// tally is the length of the input.
    pub proof fn lemma_bytes_are_exact(self, input: Seq<u8>)
        ensures
            self.tally(input).bytes == input.len(),
    {
    }

    /// Every algorithm that produces lines counts the line feeds exactly:
    /// its number of lines is the number of line feed bytes in the input.
    pub proof fn lemma_lines_are_line_feeds(self, input: Seq<u8>)
        requires
            self.capability().lines,
            self.accepts(input),
        ensures
            self.tally(input).lines == count_byte(input, LINE_FEED),
    {
        if self.decodes() {
            lemma_pieces_valid_is_valid(input);
            lemma_text_matches_bytes(input);
        }
    }

    /// Every algorithm that produces characters counts, in valid UTF-8, one
    /// for each encoded character, whatever the number of its bytes.
    pub proof fn lemma_chars_are_characters(self, input: Seq<u8>)
        requires
            self.capability().chars,
            valid_utf8(input),
        ensures
            self.tally(input).chars == decode_utf8(input).len(),
    {
        lemma_text_matches_bytes(input);
    }

    /// No number in the tally of an input exceeds the number of its
    /// bytes; so the tally of an input in memory always fits the counters.
    pub proof fn lemma_tally_bounded(self, input: Seq<u8>)
        requires
            self.accepts(input),
        ensures
            self.tally(input).lines <= input.len(),
            self.tally(input).words <= input.len(),
            self.tally(input).bytes <= input.len(),
            self.tally(input).chars <= input.len(),
            self.tally(input).longest_line <= input.len(),
            input.len() <= u64::MAX ==> self.tally(input).fits(),
    {
        lemma_bounded_by_len(input, LINE_FEED, false);
        lemma_bounded_by_len(input, LINE_FEED, true);
        if self.decodes() {
            lemma_pieces_valid_is_valid(input);
            lemma_decoded_bounded_by_len(input);
        }
    }

    /// Two algorithms that both serve a request, and both can count an
    /// input, agree on every metric that the request asks for: which of
    /// them is chosen makes no difference to what is reported.
    pub proof fn lemma_usable_strategies_agree(a: Strategy, b: Strategy, opt: Opt, input: Seq<u8>)
        requires
            a.usable(opt),
            b.usable(opt),
            a.accepts(input),
            b.accepts(input),
        ensures
            opt.lines ==> a.tally(input).lines == b.tally(input).lines,
            opt.words ==> a.tally(input).words == b.tally(input).words,
            opt.chars ==> a.tally(input).chars == b.tally(input).chars,
            opt.longest_line ==> a.tally(input).longest_line == b.tally(input).longest_line,
            a.tally(input).bytes == b.tally(input).bytes,
    {
        if a.decodes() || b.decodes() {
            lemma_pieces_valid_is_valid(input);
            lemma_text_matches_bytes(input);
        }
    }

    /// On plain ASCII, where a byte separates words exactly where its
    /// character does, the two algorithms that count words give the same
    /// lines, words and longest line, though the one goes by bytes and the
    /// other by characters.
    pub proof fn lemma_word_counters_agree_on_plain_ascii(input: Seq<u8>)
        requires
            plain_ascii(input),
        ensures
            Strategy::CharsWordsLinesLongest.tally(input).lines
                == Strategy::WordsLinesLongest.tally(input).lines,
            Strategy::CharsWordsLinesLongest.tally(input).words
                == Strategy::WordsLinesLongest.tally(input).words,
            Strategy::CharsWordsLinesLongest.tally(input).longest_line
                == Strategy::WordsLinesLongest.tally(input).longest_line,
            Strategy::CharsWordsLinesLongest.tally(input).chars == input.len(),
    {
        lemma_plain_ascii_counts_agree(input);
    }

    /// The place of the algorithm in the list of all algorithms.
    pub open spec fn place(self) -> int {
        match self {
            Strategy::BytesOnly => 0,
            Strategy::LinesOnly => 1,
            Strategy::CharsOnly => 2,
            Strategy::LinesLongest => 3,
            Strategy::WordsLinesLongest => 4,
            Strategy::CharsLinesLongest => 5,
            Strategy::CharsWordsLinesLongest => 6,
        }
    }

    /// All algorithms, in the order in which selection considers them.
    pub fn all() -> (r: [Strategy; 7])
        ensures
            forall|s: Strategy| r[#[trigger] s.place()] == s,
    {
        let r = [
            Strategy::BytesOnly,
            Strategy::LinesOnly,
            Strategy::CharsOnly,
            Strategy::LinesLongest,
            Strategy::WordsLinesLongest,
            Strategy::CharsLinesLongest,
            Strategy::CharsWordsLinesLongest,
        ];
        r
    }
}

impl<'a> From<&'a Opt> for Strategy {
    /// Selects, once for a run, the cheapest algorithm that serves the
    /// request.
    fn from(opt: &'a Opt) -> (r: Strategy)
        ensures
            r == Strategy::select(*opt),
            r.cheapest(*opt),
    {
        let candidates = Strategy::all();
        let mut best: Strategy = Strategy::CharsWordsLinesLongest;
        let mut found: bool = false;
        let mut i: usize = 0;
        proof {
            Strategy::lemma_select_is_cheapest(*opt);
        }
        while i < 7
            invariant
                i <= 7,
                found ==> best.usable(*opt),
                forall|j: int|
                    0 <= j < i && (#[trigger] candidates[j]).usable(*opt) ==> found
                        && best.capability().rank <= candidates[j].capability().rank,
            decreases 7 - i,
        {
            let candidate = candidates[i];
            let capability = candidate.capabilities();
            if capability.is_compatible(opt) {
                if !found || capability.rank < best.capabilities().rank {
                    best = candidate;
                    found = true;
                }
            }
            i += 1;
        }
        proof {
            let chosen = Strategy::select(*opt);
            assert(candidates[chosen.place()].usable(*opt));
            assert(candidates[best.place()] == best);
        }
        best
    }
}

impl<'a> FromSpecImpl<&'a Opt> for Strategy {
    open spec fn obeys_from_spec() -> bool {
        true
    }

    open spec fn from_spec(opt: &'a Opt) -> Strategy {
        Strategy::select(*opt)
    }
}

/// A counting algorithm.
pub trait Counter {
    /// Which algorithm this is.
    spec fn strategy(&self) -> Strategy;

    /// What the algorithm can produce, and its rank.
    fn capabilities(&self) -> (r: Capability)
        ensures
            r == self.strategy().capability(),
    ;

    /// Counts the whole input `data` and folds the result into `count`:
    /// sums for lines, words, bytes and characters, the larger value for
    /// the longest line. Where the algorithm cannot count `data`, it says
    /// so and leaves `count` as it was.
    ///
    /// The sums have to fit the counters. In an empty record they always
    /// do, since no number counted exceeds the length of `data`.
    fn count(&self, data: &[u8], count: &mut Counts) -> (r: Result<(), CountError>)
        requires
            old(count).tally() == Tally::zero() || (self.strategy().counted(data@) matches Some(t)
                ==> old(count).tally().plus(t).fits()),
        ensures
            final(count).path == old(count).path,
            match self.strategy().counted(data@) {
                Some(t) => r is Ok && final(count).tally() == old(count).tally().plus(t),
                None => r == Err::<(), CountError>(CountError::InvalidText) && *final(count)
                    == *old(count),
            },
    ;

    /// Counts a file without reading it, where that can be done: where the
    /// algorithm needs nothing but the number of bytes, and `size` holds the
    /// size of the file, known for a regular file whose metadata could be
    /// had. Otherwise the file has to be read.
    fn count_file(&self, path: &str, size: Option<u64>) -> (r: Option<Counts>)
        ensures
            r is Some <==> self.strategy() == Strategy::BytesOnly && size is Some,
            r matches Some(counts) ==> counts.path is Some && counts.label() == path@
                && counts.tally() == (Tally { bytes: size.unwrap() as nat, ..Tally::zero() }),
    ;
}

impl Counter for Strategy {
    open spec fn strategy(&self) -> Strategy {
        *self
    }

    fn capabilities(&self) -> (r: Capability) {
        match self {
            Strategy::BytesOnly => Capability {
                rank: 0,
                lines: false,
                words: false,
                bytes: true,
                chars: false,
                longest_line: false,
            },
            Strategy::LinesOnly => Capability {
                rank: 1,
                lines: true,
                words: false,
                bytes: true,
                chars: false,
                longest_line: false,
            },
            Strategy::CharsOnly => Capability {
                rank: 1,
                lines: false,
                words: false,
                bytes: true,
                chars: true,
                longest_line: false,
            },
            Strategy::LinesLongest => Capability {
                rank: 30,
                lines: true,
                words: false,
                bytes: true,
                chars: false,
                longest_line: true,
            },
            Strategy::WordsLinesLongest => Capability {
                rank: 150,
                lines: true,
                words: true,
                bytes: true,
                chars: false,
                longest_line: true,
            },
            Strategy::CharsLinesLongest => Capability {
                rank: 120,
                lines: true,
                words: false,
                bytes: true,
                chars: true,
                longest_line: true,
            },
            Strategy::CharsWordsLinesLongest => Capability {
                rank: 400,
                lines: true,
                words: true,
                bytes: true,
                chars: true,
                longest_line: true,
            },
        }
    }

    fn count(&self, data: &[u8], count: &mut Counts) -> (r: Result<(), CountError>) {
        let mut scanner = Scanner::new(*self, None);
        let len: usize = data.len();
        let mut start: usize = 0;
        assert(data@.skip(0) =~= data@);
        assert(data@.take(0) =~= Seq::<u8>::empty());
        while start < len
            invariant
                len == data@.len(),
                start <= len,
                scanner.wf(),
                scanner@.strategy == *self,
                scanner@.seen == data@.take(start as int),
                *count == *old(count),
                self.decodes() ==> pieces_valid(data@) == pieces_valid(data@.skip(start as int)),
            decreases len - start,
        {
            let n: usize = if let Strategy::CharsWordsLinesLongest = *self {
                piece_at(data, start)
            } else if len - start < READ_SIZE {
                len - start
            } else {
                READ_SIZE
            };
            proof {
                lemma_piece_len(data@.skip(start as int), READ_SIZE as nat);
            }
            let chunk = slice_subrange(data, start, start + n);
            proof {
                let rest = data@.skip(start as int);
                assert(rest.take(n as int) =~= chunk@);
                assert(rest.skip(n as int) =~= data@.skip(start + n));
                assert(data@.take(start as int) + chunk@ =~= data@.take(start + n));
            }
            match scanner.feed(chunk) {
                Ok(()) => {},
                Err(e) => {
                    return Err(e);
                },
            }
            start = start + n;
        }
        proof {
            assert(data@.take(start as int) =~= data@);
            assert(data@.skip(start as int) =~= Seq::<u8>::empty());
            self.lemma_tally_bounded(data@);
        }
        count.add(scanner.counts());
        Ok(())
    }

    fn count_file(&self, path: &str, size: Option<u64>) -> (r: Option<Counts>) {
        match (self, size) {
            (Strategy::BytesOnly, Some(bytes)) => {
                let mut counts = Counts::new(path);
                counts.bytes = bytes;
                Some(counts)
            },
            _ => None,
        }
    }
}

} // verus!
