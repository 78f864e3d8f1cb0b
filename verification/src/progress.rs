//! How far the comparison of the lines has come.

use vstd::prelude::*;

verus! {

/// How `humantime` writes a duration of so many seconds and nanoseconds.
pub uninterp spec fn duration_text(secs: u64, nanos: u32) -> Seq<char>;

/// `humantime::format_duration`, written out: a text that depends on nothing but the duration.
/// A duration has less than a second in its nanoseconds.
#[verifier::external_body]
fn format_duration(secs: u64, nanos: u32) -> (text: String)
    requires
        nanos < 1_000_000_000,
    ensures
        text@ == duration_text(secs, nanos),
{
    humantime::format_duration(std::time::Duration::new(secs, nanos)).to_string()
}

/// A look at the jobs that compare the lines.
#[derive(Clone, Copy, Debug)]
pub struct Progress {
    /// The jobs handed to the pool so far.
    pub submitted: usize,
    /// All jobs, of which there is one for each line.
    pub total: usize,
    /// The jobs handed to the pool that are not finished.
    pub queued: usize,
}

impl Progress {
    /// The jobs that are finished, as far as the look shows: the three numbers are not read in one
    /// instant, so more may be queued than submitted.
    pub open spec fn finished(self) -> int {
        if self.submitted < self.queued {
            0
        } else {
            self.submitted - self.queued
        }
    }

    /// The share of the jobs that were submitted, in percent.
    pub fn submitted_percent(&self) -> (percent: usize)
        requires
            self.total > 0,
            self.submitted * 100 <= usize::MAX,
        ensures
            percent == self.submitted * 100 / (self.total as int),
    {
        (self.submitted * 100) / self.total
    }

    /// The share of the jobs that are finished, in percent.
    pub fn finished_percent(&self) -> (percent: usize)
        requires
            self.total > 0,
            self.submitted * 100 <= usize::MAX,
        ensures
            percent == self.finished() * 100 / (self.total as int),
            self.queued <= self.submitted ==> percent == (self.submitted - self.queued) * 100 / (
            self.total as int),
            self.submitted < self.queued ==> percent == 0int * 100 / (self.total as int),
    {
        (self.submitted.saturating_sub(self.queued) * 100) / self.total
    }

    /// The jobs that were not submitted yet.
    pub fn remaining(&self) -> (remaining: usize)
        requires
            self.submitted <= self.total,
        ensures
            remaining == self.total - self.submitted,
    {
        self.total - self.submitted
    }

    /// The time that is left, in words: unknown until the first job was submitted, then the
    /// estimate that is given in seconds and nanoseconds.
    pub fn eta_text(&self, secs: u64, nanos: u32) -> (text: String)
        requires
            nanos < 1_000_000_000,
        ensures
            text@ == (if self.submitted == 0 {
                "??"@
            } else {
                duration_text(secs, nanos)
            }),
    {
        if self.submitted > 0 {
            format_duration(secs, nanos)
        } else {
            "??".to_owned()
        }
    }
}

/// No share exceeds the whole, and never are more jobs finished than were submitted.
pub proof fn law_shares_are_ordered(progress: Progress)
    requires
        progress.total > 0,
        progress.submitted <= progress.total,
    ensures
        0 <= progress.finished() * 100 / (progress.total as int) <= progress.submitted * 100 / (
        progress.total as int) <= 100,
{
    let total = progress.total as int;
    let submitted = progress.submitted * 100;
    let finished = progress.finished() * 100;
    vstd::arithmetic::div_mod::lemma_div_is_ordered(0, finished, total);
    vstd::arithmetic::div_mod::lemma_div_is_ordered(finished, submitted, total);
    vstd::arithmetic::div_mod::lemma_div_is_ordered(submitted, 100 * total, total);
    vstd::arithmetic::div_mod::lemma_div_multiples_vanish(100, total);
    vstd::arithmetic::div_mod::lemma_div_multiples_vanish(0, total);
    assert(100 * total == total * 100);
}

/// When every job was submitted and none is left in the queue, both shares are the whole.
pub proof fn law_shares_at_the_end(progress: Progress)
    requires
        progress.total > 0,
        progress.submitted == progress.total,
        progress.queued == 0,
    ensures
        progress.submitted * 100 / (progress.total as int) == 100,
        progress.finished() * 100 / (progress.total as int) == 100,
{
    vstd::arithmetic::div_mod::lemma_div_multiples_vanish(100, progress.total as int);
}

/// The finished jobs and the queued ones together are the submitted ones; where more are queued than
/// submitted, none is finished.
pub proof fn law_finished_and_queued_make_submitted(progress: Progress)
    ensures
        progress.queued <= progress.submitted ==> progress.finished() + progress.queued
            == progress.submitted,
        progress.submitted < progress.queued ==> progress.finished() == 0,
{
}

} // verus!
