//! Results of many inputs, reported in the order of the inputs.
//!
//! Inputs may be counted by several workers and finish in any order. The
//! [`Pipeline`] takes each result as it arrives, holds back those that are
//! ahead of their turn, and hands out the text to write as soon as the next
//! input in line is there. It alone keeps the running total.

use crate::args::Opt;
use crate::count::{Counts, Tally};
use std::collections::HashMap;
use vstd::prelude::*;
use vstd::string::*;

verus! {

/// Why an input could not be counted.
#[derive(Debug)]
pub struct Failure {
    /// The input that failed.
    pub path: String,
    /// What went wrong, in words.
    pub message: String,
}

impl Failure {
    /// The line that reports this failure: the path, a colon and a space,
    /// the message, and a line feed.
    pub open spec fn text(self) -> Seq<char> {
        self.path@ + seq![':', ' '] + self.message@ + seq!['\n']
    }

    /// Writes the line that reports this failure into a string.
    pub fn line(&self) -> (out: String)
        ensures
            out@ == self.text(),
    {
        let mut out = String::new();
        proof {
            reveal_strlit(": ");
            reveal_strlit("\n");
        }
        out.append(self.path.as_str());
        out.append(": ");
        out.append(self.message.as_str());
        out.append("\n");
        assert(out@ =~= self.text());
        out
    }
}

/// What became of one input.
pub type Outcome = Result<Counts, Failure>;

/// Text to write, and the stream it belongs to.
#[derive(Debug)]
pub enum Output {
    /// A line of counts, for standard output.
    Line(String),
    /// A line that reports a failure, for the error stream.
    Error(String),
}

/// The characters of an [`Output`].
pub enum Shown {
    Line(Seq<char>),
    Error(Seq<char>),
}

impl View for Output {
    type V = Shown;

    open spec fn view(&self) -> Shown {
        match self {
            Output::Line(s) => Shown::Line(s@),
            Output::Error(s) => Shown::Error(s@),
        }
    }
}

/// The characters of a list of outputs.
pub open spec fn shown(outputs: Seq<Output>) -> Seq<Shown> {
    Seq::new(outputs.len(), |i: int| outputs[i]@)
}

/// What is written for one input: its line of counts, or the report of its
/// failure.
pub open spec fn report(outcome: Outcome, opt: Opt) -> Shown {
    match outcome {
        Ok(counts) => Shown::Line(counts.line(opt)),
        Err(failure) => Shown::Error(failure.text()),
    }
}

/// What is written for the inputs `from..to`, in the order of the inputs.
pub open spec fn reports(results: Seq<Option<Outcome>>, from: int, to: int, opt: Opt) -> Seq<
    Shown,
> {
    Seq::new((to - from) as nat, |j: int| report(results[from + j].unwrap(), opt))
}

/// The counts of the inputs before `upto` that were counted, taken
/// together. Inputs that failed or have no result yet add nothing.
pub open spec fn total_of(results: Seq<Option<Outcome>>, upto: int) -> Tally
    decreases upto,
{
    if upto <= 0 {
        Tally::zero()
    } else {
        let before = total_of(results, upto - 1);
        match results[upto - 1] {
            Some(Ok(counts)) => before.plus(counts.tally()),
            _ => before,
        }
    }
}

/// True when an input before `upto` has failed.
pub open spec fn any_failed(results: Seq<Option<Outcome>>, upto: int) -> bool
    decreases upto,
{
    if upto <= 0 {
        false
    } else {
        any_failed(results, upto - 1) || results[upto - 1] matches Some(Err(_))
    }
}

/// The total only grows with the number of inputs it covers.
pub proof fn lemma_total_grows(results: Seq<Option<Outcome>>, a: int, b: int)
    requires
        a <= b,
    ensures
        total_of(results, a).lines <= total_of(results, b).lines,
        total_of(results, a).words <= total_of(results, b).words,
        total_of(results, a).bytes <= total_of(results, b).bytes,
        total_of(results, a).chars <= total_of(results, b).chars,
        total_of(results, a).longest_line <= total_of(results, b).longest_line,
    decreases b - a,
{
    if a < b {
        lemma_total_grows(results, a, b - 1);
    }
}

/// A result that comes in for an input without one changes nothing before
/// that input, and adds the input's counts to every total that covers it.
pub proof fn lemma_total_of_arrival(
    results: Seq<Option<Outcome>>,
    index: int,
    outcome: Outcome,
    upto: int,
)
    requires
        0 <= index < results.len(),
        results[index] is None,
        upto <= results.len(),
    ensures
        total_of(results.update(index, Some(outcome)), upto) == (if index < upto {
            match outcome {
                Ok(counts) => total_of(results, upto).plus(counts.tally()),
                Err(_) => total_of(results, upto),
            }
        } else {
            total_of(results, upto)
        }),
        any_failed(results.update(index, Some(outcome)), upto) == (any_failed(results, upto) || (
        index < upto && outcome is Err)),
    decreases upto,
{
    if upto > 0 {
        lemma_total_of_arrival(results, index, outcome, upto - 1);
    }
}

/// The state of a [`Pipeline`].
pub struct Progress {
    /// The options of the run; `opt.input` lists the inputs.
    pub opt: Opt,
    /// For each input, its result once that has come in.
    pub results: Seq<Option<Outcome>>,
    /// The number of inputs reported so far.
    pub next: int,
    /// Everything handed out for writing so far.
    pub emitted: Seq<Shown>,
    /// The counts of the reported inputs, taken together.
    pub total: Counts,
    /// The counts of all inputs whose result has come in, taken together.
    pub accepted: Counts,
    /// True when a reported input has failed.
    pub failed: bool,
    /// The results that are held back until their turn, by input.
    pub held: Map<usize, Outcome>,
}

/// Puts the results of a run's inputs in the order of the inputs.
pub struct Pipeline {
    opt: Opt,
    next: usize,
    buffered: HashMap<usize, Outcome>,
    total: Counts,
    accepted: Counts,
    failed: bool,
    results: Ghost<Seq<Option<Outcome>>>,
    emitted: Ghost<Seq<Shown>>,
}

impl View for Pipeline {
    type V = Progress;

    closed spec fn view(&self) -> Progress {
        Progress {
            opt: self.opt,
            results: self.results@,
            next: self.next as int,
            emitted: self.emitted@,
            total: self.total,
            accepted: self.accepted,
            failed: self.failed,
            held: self.buffered@,
        }
    }
}

impl Pipeline {
    /// The results held back are exactly those that have come in for
    /// inputs not yet reported.
    pub open spec fn holds_back_the_rest(self) -> bool {
        let p = self@;
        forall|k: usize|
            #![trigger p.held.contains_key(k)]
            #![trigger p.results[k as int]]
            {
                &&& p.held.contains_key(k) <==> (p.next <= k < p.results.len()
                    && p.results[k as int] is Some)
                &&& p.held.contains_key(k) ==> p.results[k as int] == Some(p.held[k])
            }
    }

    /// What holds of a pipeline while it reports: every input before `next`
    /// has its result and has been reported, in the order of the inputs; the
    /// total covers exactly the reported inputs.
    pub open spec fn consistent(self) -> bool {
        let p = self@;
        &&& p.results.len() == p.opt.input@.len()
        &&& 0 <= p.next <= p.results.len()
        &&& forall|i: int| 0 <= i < p.next ==> (#[trigger] p.results[i]) is Some
        &&& p.emitted == reports(p.results, 0, p.next, p.opt)
        &&& p.total.tally() == total_of(p.results, p.next)
        &&& p.total.path is Some
        &&& p.total.label() == "total"@
        &&& p.accepted.tally() == total_of(p.results, p.results.len() as int)
        &&& p.failed == any_failed(p.results, p.next)
        &&& self.holds_back_the_rest()
    }

    /// What holds of a pipeline between two calls: it is consistent, and
    /// the input that is next in line has no result yet.
    pub open spec fn wf(self) -> bool {
        &&& self.consistent()
        &&& self@.next < self@.results.len() ==> self@.results[self@.next] is None
    }

    /// True when the pipeline still waits for the result of input `index`.
    pub open spec fn awaits(self, index: int) -> bool {
        0 <= index < self@.results.len() && self@.results[index] is None
    }

    /// True when the counts of `outcome` can be folded into the total of
    /// all that came in.
    pub open spec fn has_room(self, outcome: Outcome) -> bool {
        outcome matches Ok(counts) ==> self@.accepted.can_add(counts)
    }

    /// A pipeline for the inputs of `opt`, with nothing reported.
    pub fn new(opt: Opt) -> (r: Pipeline)
        ensures
            r.wf(),
            r@.opt == opt,
            r@.next == 0,
            r@.emitted == Seq::<Shown>::empty(),
            r@.results == Seq::new(opt.input@.len(), |i: int| None::<Outcome>),
            r@.total.tally() == Tally::zero(),
            r@.accepted.tally() == Tally::zero(),
            r@.held == Map::<usize, Outcome>::empty(),
            !r@.failed,
    {
        let ghost results = Seq::new(opt.input@.len(), |i: int| None::<Outcome>);
        let r = Pipeline {
            opt,
            next: 0,
            buffered: HashMap::new(),
            total: Counts::new("total"),
            accepted: Counts::default(),
            failed: false,
            results: Ghost(results),
            emitted: Ghost(Seq::empty()),
        };
        proof {
            lemma_total_of_nothing(results, results.len() as int);
            assert(r@.emitted =~= reports(r@.results, 0, 0, r@.opt));
        }
        r
    }

    /// Tells whether the result of input `index` may be handed in now: the
    /// pipeline waits for it, and its counts fit into the total.
    pub fn can_accept(&self, index: usize, outcome: &Outcome) -> (r: bool)
        requires
            self.wf(),
        ensures
            r == (self.awaits(index as int) && self.has_room(*outcome)),
    {
        let waits = self.next <= index && index < self.opt.input.len()
            && !self.buffered.contains_key(&index);
        let room = match outcome {
            Ok(counts) => self.accepted.has_room_for(counts),
            Err(_) => true,
        };
        waits && room
    }

    /// Takes the result of input `index` and hands out what can be written
    /// now: the reports of the inputs from the one next in line up to the
    /// first that has no result yet, in the order of the inputs. The counts
    /// of reported inputs go into the total; a reported failure is
    /// remembered.
    pub fn accept(&mut self, index: usize, outcome: Outcome) -> (out: Vec<Output>)
        requires
            old(self).wf(),
            old(self).awaits(index as int),
            old(self).has_room(outcome),
        ensures
            final(self).wf(),
            final(self)@.opt == old(self)@.opt,
            final(self)@.results == old(self)@.results.update(index as int, Some(outcome)),
            old(self)@.next <= final(self)@.next,
            shown(out@) == reports(
                final(self)@.results,
                old(self)@.next,
                final(self)@.next,
                final(self)@.opt,
            ),
            final(self)@.emitted == old(self)@.emitted + shown(out@),
            final(self)@.accepted.tally() == (match outcome {
                Ok(counts) => old(self)@.accepted.tally().plus(counts.tally()),
                Err(_) => old(self)@.accepted.tally(),
            }),
    {
        let ghost before = self.results@;
        let ghost after = before.update(index as int, Some(outcome));
        let ghost first = self.next as int;
        let items = self.opt.input.len();
        proof {
            lemma_total_of_arrival(before, index as int, outcome, before.len() as int);
            lemma_total_of_arrival(before, index as int, outcome, first);
            assert(reports(after, 0, first, self.opt) =~= reports(before, 0, first, self.opt));
        }
        match &outcome {
            Ok(counts) => {
                self.accepted.add(counts);
            },
            Err(_) => {},
        }
        self.buffered.insert(index, outcome);
        self.results = Ghost(after);
        let mut out: Vec<Output> = Vec::new();
        assert(shown(out@) =~= reports(after, first, first, self.opt));
        while self.next < items && self.buffered.contains_key(&self.next)
            invariant
                self.consistent(),
                items == self.opt.input@.len(),
                self.opt == old(self).opt,
                self.results@ == after,
                self.accepted == old(self).accepted || (outcome matches Ok(counts)
                    && self.accepted.tally() == old(self).accepted.tally().plus(counts.tally())),
                outcome is Err ==> self.accepted == old(self).accepted,
                first <= self.next,
                shown(out@) == reports(after, first, self.next as int, self.opt),
                self.emitted@ == old(self).emitted@ + shown(out@),
            decreases items - self.next,
        {
            let ghost at = self.next as int;
            let ghost shown_before = shown(out@);
            let got = self.buffered.remove(&self.next);
            let outcome = got.unwrap();
            proof {
                lemma_total_grows(after, at + 1, after.len() as int);
            }
            match outcome {
                Ok(counts) => {
                    self.total.add(&counts);
                    let line = counts.print(&self.opt);
                    out.push(Output::Line(line));
                },
                Err(failure) => {
                    self.failed = true;
                    let line = failure.line();
                    out.push(Output::Error(line));
                },
            }
            self.next = self.next + 1;
            proof {
                let item = report(after[at].unwrap(), self.opt);
                assert(shown(out@) =~= shown_before.push(item));
                assert(reports(after, first, at + 1, self.opt) =~= reports(
                    after,
                    first,
                    at,
                    self.opt,
                ).push(item));
                assert(reports(after, 0, at + 1, self.opt) =~= reports(after, 0, at, self.opt).push(
                    item,
                ));
                self.emitted@ = self.emitted@.push(item);
            }
        }
        out
    }

    /// The options of the run.
    pub fn opt(&self) -> (r: &Opt)
        ensures
            *r == self@.opt,
    {
        &self.opt
    }

    /// The number of inputs reported so far.
    pub fn reported(&self) -> (r: usize)
        ensures
            r == self@.next,
    {
        self.next
    }

    /// The counts of the reported inputs, taken together.
    pub fn total(&self) -> (r: &Counts)
        ensures
            *r == self@.total,
    {
        &self.total
    }

    /// The closing line of the run: the line of the total where the run has
    /// more than one input, none otherwise.
    pub fn total_line(&self) -> (r: Option<String>)
        ensures
            self@.opt.input@.len() > 1 ==> r is Some && r.unwrap()@ == self@.total.line(self@.opt),
            self@.opt.input@.len() <= 1 ==> r is None,
    {
        if self.opt.input.len() > 1 {
            Some(self.total.print(&self.opt))
        } else {
            None
        }
    }

    /// The exit status of the run so far: 1 once a reported input has
    /// failed, 0 before.
    pub fn exit_code(&self) -> (r: i32)
        ensures
            r == (if self@.failed {
                1i32
            } else {
                0i32
            }),
    {
        if self.failed {
            1
        } else {
            0
        }
    }
}

/// Without any result there is nothing to sum and no failure.
pub proof fn lemma_total_of_nothing(results: Seq<Option<Outcome>>, upto: int)
    requires
        upto <= results.len(),
        forall|i: int| 0 <= i < results.len() ==> (#[trigger] results[i]) is None,
    ensures
        total_of(results, upto) == Tally::zero(),
        !any_failed(results, upto),
    decreases upto,
{
    if upto > 0 {
        lemma_total_of_nothing(results, upto - 1);
    }
}

/// What a pipeline has handed out and summed rests on the results that are
/// in, not on the order in which they came: two pipelines of the same run
/// that hold the same results have reported the same inputs, with the same
/// text in the same order, and hold the same total.
pub proof fn lemma_order_of_arrival_is_immaterial(p: Pipeline, q: Pipeline)
    requires
        p.wf(),
        q.wf(),
        p@.opt == q@.opt,
        p@.results == q@.results,
    ensures
        p@.next == q@.next,
        p@.emitted == q@.emitted,
        p@.total.tally() == q@.total.tally(),
        p@.accepted.tally() == q@.accepted.tally(),
        p@.failed == q@.failed,
{
    if p@.next < q@.next {
        assert(q@.results[p@.next] is Some);
    }
    if q@.next < p@.next {
        assert(p@.results[q@.next] is Some);
    }
}

/// Once the result of every input is in, every input has been reported,
/// in the order of the inputs, and the total is the sum over all inputs
/// that were counted, with the longest of their longest lines.
pub proof fn lemma_all_reported(p: Pipeline)
    requires
        p.wf(),
        forall|i: int| 0 <= i < p@.results.len() ==> (#[trigger] p@.results[i]) is Some,
    ensures
        p@.next == p@.results.len(),
        p@.emitted == reports(p@.results, 0, p@.results.len() as int, p@.opt),
        p@.total.tally() == total_of(p@.results, p@.results.len() as int),
        p@.total.tally() == p@.accepted.tally(),
        p@.failed == any_failed(p@.results, p@.results.len() as int),
{
    if p@.next < p@.results.len() {
        assert(p@.results[p@.next] is Some);
    }
}

/// Results for different inputs may come in either order: the results that
/// are in are the same.
pub proof fn lemma_arrivals_commute(
    results: Seq<Option<Outcome>>,
    i: int,
    a: Outcome,
    j: int,
    b: Outcome,
)
    requires
        0 <= i < results.len(),
        0 <= j < results.len(),
        i != j,
    ensures
        results.update(i, Some(a)).update(j, Some(b)) == results.update(j, Some(b)).update(
            i,
            Some(a),
        ),
{
    assert(results.update(i, Some(a)).update(j, Some(b)) =~= results.update(j, Some(b)).update(
        i,
        Some(a),
    ));
}

} // verus!
