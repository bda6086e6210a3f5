//! Meta information about a training run.

use vstd::prelude::*;

verus! {

/// Relies on chrono's `Local::now` and `DateTime::format` for a
/// wall-clock timestamp; the result depends on the clock, so nothing
/// is assumed of it. As chrono's `now` does, this panics on a system
/// clock set before the Unix epoch.
#[verifier::external_body]
fn now_datetime_string() -> String {
    chrono::Local::now().format("%Y-%m-%d %H:%M:%S").to_string()
}

/// Meta information about training: corpus and output paths, worker
/// count, and the wall-clock start and end of the run.
pub struct TrainInfo {
    corpus: String,
    output: String,
    n_threads: usize,
    start_datetime: String,
    end_datetime: Option<String>,
}

impl TrainInfo {
    /// The corpus path.
    pub closed spec fn spec_corpus(&self) -> Seq<char> {
        self.corpus@
    }

    /// The output path.
    pub closed spec fn spec_output(&self) -> Seq<char> {
        self.output@
    }

    /// The number of worker threads.
    pub closed spec fn spec_n_threads(&self) -> usize {
        self.n_threads
    }

    /// The start timestamp.
    pub closed spec fn spec_start_datetime(&self) -> Seq<char> {
        self.start_datetime@
    }

    /// The end timestamp, when the run has finished.
    pub closed spec fn spec_end_datetime(&self) -> Option<Seq<char>> {
        match self.end_datetime {
            Some(s) => Some(s@),
            None => None,
        }
    }

    /// Construct new TrainInfo.
    ///
    /// The start timestamp is taken from the clock; the end timestamp
    /// is unset until `set_end`.
    pub fn new(corpus: String, output: String, n_threads: usize) -> (r: TrainInfo)
        ensures
            r.spec_corpus() == corpus@,
            r.spec_output() == output@,
            r.spec_n_threads() == n_threads,
            r.spec_end_datetime() is None,
    {
        let start_datetime = now_datetime_string();
        TrainInfo { corpus, output, n_threads, start_datetime, end_datetime: None }
    }

    /// Get the corpus path.
    pub fn corpus(&self) -> (r: &str)
        ensures
            r@ == self.spec_corpus(),
    {
        self.corpus.as_str()
    }

    /// Get the output file.
    pub fn output(&self) -> (r: &str)
        ensures
            r@ == self.spec_output(),
    {
        self.output.as_str()
    }

    /// Get the number of threads.
    pub fn n_threads(&self) -> (r: usize)
        ensures
            r == self.spec_n_threads(),
    {
        self.n_threads
    }

    /// Get the start datetime.
    pub fn start_datetime(&self) -> (r: &str)
        ensures
            r@ == self.spec_start_datetime(),
    {
        self.start_datetime.as_str()
    }

    /// Get the end datetime.
    pub fn end_datetime(&self) -> (r: Option<&str>)
        ensures
            (match r {
                Some(s) => self.spec_end_datetime() == Some(s@),
                None => self.spec_end_datetime() is None,
            }),
    {
        match &self.end_datetime {
            Some(s) => Some(s.as_str()),
            None => None,
        }
    }

    /// Set the end datetime to the current datetime.
    pub fn set_end(&mut self)
        ensures
            final(self).spec_corpus() == old(self).spec_corpus(),
            final(self).spec_output() == old(self).spec_output(),
            final(self).spec_n_threads() == old(self).spec_n_threads(),
            final(self).spec_start_datetime() == old(self).spec_start_datetime(),
            final(self).spec_end_datetime() is Some,
    {
        let end = now_datetime_string();
        self.end_datetime = Some(end);
    }
}

} // verus!
