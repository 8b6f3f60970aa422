//! The jobs of the compaction, and the updater's end of the channel that brings them.

use std::collections::VecDeque;
use vstd::prelude::*;

verus! {

/// An old entry, and where it stands.
#[derive(Debug)]
pub struct CompactJob {
    pub old_pos: i64,
    pub entry_bz: Vec<u8>,
}

/// Jobs that were received and not yet taken, and jobs that go back to the producer,
/// each in the order in which they came.
pub struct Consumer {
    jobs: VecDeque<CompactJob>,
    returned: VecDeque<CompactJob>,
}

impl Consumer {
    pub closed spec fn jobs(&self) -> Seq<CompactJob> {
        self.jobs@
    }

    pub closed spec fn returned(&self) -> Seq<CompactJob> {
        self.returned@
    }

    /// A channel with no job in it.
    pub fn new() -> (c: Self)
        ensures
            c.jobs() == Seq::<CompactJob>::empty(),
            c.returned() == Seq::<CompactJob>::empty(),
    {
        Consumer { jobs: VecDeque::new(), returned: VecDeque::new() }
    }

    /// Receives a job.
    pub fn produce(&mut self, job: CompactJob)
        ensures
            final(self).jobs() == old(self).jobs().push(job),
            final(self).returned() == old(self).returned(),
    {
        self.jobs.push_back(job);
    }

    /// Takes the first job, if there is one.
    pub fn consume(&mut self) -> (job: Option<CompactJob>)
        ensures
            job is Some == (old(self).jobs().len() > 0),
            job matches Some(j) ==> j == old(self).jobs()[0] && final(self).jobs() == old(
                self,
            ).jobs().skip(1),
            job is None ==> final(self).jobs() == old(self).jobs(),
            final(self).returned() == old(self).returned(),
    {
        let job = self.jobs.pop_front();
        assert(job is Some ==> self.jobs@ =~= old(self).jobs@.skip(1));
        job
    }

    /// Sends a job back.
    pub fn send_returned(&mut self, job: CompactJob)
        ensures
            final(self).jobs() == old(self).jobs(),
            final(self).returned() == old(self).returned().push(job),
    {
        self.returned.push_back(job);
    }

    /// Takes the first job that goes back, if there is one.
    pub fn receive_returned(&mut self) -> (job: Option<CompactJob>)
        ensures
            job is Some == (old(self).returned().len() > 0),
            job matches Some(j) ==> j == old(self).returned()[0] && final(self).returned() == old(
                self,
            ).returned().skip(1),
            job is None ==> final(self).returned() == old(self).returned(),
            final(self).jobs() == old(self).jobs(),
    {
        let job = self.returned.pop_front();
        assert(job is Some ==> self.returned@ =~= old(self).returned@.skip(1));
        job
    }
}

} // verus!
