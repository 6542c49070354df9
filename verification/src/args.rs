//! The options of a run: which metrics are wanted and over which inputs.

use vstd::prelude::*;

verus! {

/// What a run was asked to do.
///
/// `chars` selects characters as the unit for the size column and for the
/// longest line; it takes precedence over `bytes` when both are set.
#[derive(Debug, Clone)]
pub struct Opt {
    /// Count lines.
    pub lines: bool,
    /// Count words.
    pub words: bool,
    /// Count bytes.
    pub bytes: bool,
    /// Report the length of the longest line.
    pub longest_line: bool,
    /// Count UTF-8 characters instead of bytes.
    pub chars: bool,
    /// Number of counting threads that may be used.
    pub threads: usize,
    /// A file that lists further inputs, one per line.
    pub files_from: Option<String>,
    /// A file that lists further inputs, each ended by a NUL byte.
    pub files0_from: Option<String>,
    /// The inputs, in the order in which they are reported.
    pub input: Vec<String>,
}

impl Opt {
    /// True when no metric at all was asked for.
    pub open spec fn asks_nothing(self) -> bool {
        !(self.bytes || self.words || self.chars || self.lines || self.longest_line)
    }

    /// The number of workers that count the inputs: as many as there are
    /// inputs, but no more than `threads`.
    pub open spec fn worker_count(self) -> nat {
        if self.input@.len() <= self.threads {
            self.input@.len()
        } else {
            self.threads as nat
        }
    }

    /// The number of workers that count the inputs. With one worker or none
    /// the inputs are counted one after the other.
    pub fn workers(&self) -> (r: usize)
        ensures
            r == self.worker_count(),
    {
        if self.input.len() <= self.threads {
            self.input.len()
        } else {
            self.threads
        }
    }

    /// Fills in the metrics of a run that named none: lines, words and bytes.
    /// A run that named any metric is left as it is.
    pub fn apply_defaults(&mut self)
        ensures
            old(self).asks_nothing() ==> *final(self) == (Opt {
                lines: true,
                words: true,
                bytes: true,
                ..*old(self)
            }),
            !old(self).asks_nothing() ==> *final(self) == *old(self),
            !final(self).asks_nothing(),
    {
        if !(self.bytes || self.words || self.chars || self.lines || self.longest_line) {
            self.lines = true;
            self.bytes = true;
            self.words = true;
        }
    }
}

impl Default for Opt {
    fn default() -> (r: Opt)
        ensures
            r.asks_nothing(),
            r.threads == 0,
            r.files_from is None,
            r.files0_from is None,
            r.input@ == Seq::<String>::empty(),
    {
        Opt {
            lines: false,
            words: false,
            bytes: false,
            longest_line: false,
            chars: false,
            threads: 0,
            files_from: None,
            files0_from: None,
            input: Vec::new(),
        }
    }
}

} // verus!
