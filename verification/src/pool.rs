use crate::record::HashRecord;
use vstd::prelude::*;

verus! {

/// Where a submitted path stands.
#[derive(Debug, Clone, Copy, PartialEq, Eq, Structural)]
pub enum Slot {
    /// In the work queue, not yet handed to a worker.
    Queued,
    /// Handed to a worker that has not reported back.
    Running,
    /// Reported back as unreadable: dropped without a record.
    Dropped,
    /// Reported back with a digest: its record is in the result queue.
    Recorded,
}

/// What a worker does next.
#[derive(Debug, Clone, PartialEq, Eq)]
pub enum WorkerAction {
    /// Digest the file at this path, report back under this ticket, then
    /// ask again.
    Digest { ticket: usize, path: String },
    /// The queue is empty for now but paths may still come: wait a bounded
    /// time, then ask again.
    Wait,
    /// Enumeration is complete and the queue is empty: stop.
    Exit,
}

/// The shared state of a checksum run: the work queue that the path source
/// fills and the workers empty, and the result queue that the workers fill.
/// A ticket is the position of a path among the submitted ones.
pub struct Pipeline {
    paths: Vec<String>,
    slots: Vec<Slot>,
    head: usize,
    closed: bool,
    results: Vec<HashRecord>,
    origins: Ghost<Seq<int>>,
    outcomes: Ghost<Map<int, Option<Seq<char>>>>,
}

/// The text of an optional digest.
pub open spec fn outcome_text(digest: Option<String>) -> Option<Seq<char>> {
    match digest {
        Some(d) => Some(d@),
        None => None,
    }
}

impl Pipeline {
    /// The paths submitted so far, in order.
    pub closed spec fn submitted(&self) -> Seq<Seq<char>> {
        Seq::new(self.paths@.len(), |t: int| self.paths@[t]@)
    }

    /// Where each submitted path stands.
    pub closed spec fn slots(&self) -> Seq<Slot> {
        self.slots@
    }

    /// The ticket that the next worker to ask will get: all tickets below
    /// it have been handed out, none from it on.
    pub closed spec fn head(&self) -> int {
        self.head as int
    }

    /// Whether enumeration is complete.
    pub closed spec fn is_closed(&self) -> bool {
        self.closed
    }

    /// The records in the result queue, in the order they were reported.
    pub closed spec fn emitted(&self) -> Seq<HashRecord> {
        self.results@
    }

    /// For each record in the result queue, the ticket it was reported
    /// under.
    pub closed spec fn origins(&self) -> Seq<int> {
        self.origins@
    }

    /// What the workers have reported, by ticket: a digest, or none for a
    /// file that could not be read.
    pub closed spec fn outcomes(&self) -> Map<int, Option<Seq<char>>> {
        self.outcomes@
    }

    /// The invariant of the type. The queue is what lies from the head on;
    /// a ticket has an outcome exactly if its worker has reported back;
    /// each ticket reported with a digest has exactly one record in the
    /// result queue, which holds its path and that digest, and the result
    /// queue holds no other record.
    pub open spec fn wf(&self) -> bool {
        let count = self.submitted().len() as int;
        &&& self.slots().len() == count
        &&& 0 <= self.head() <= count
        &&& forall|t: int| 0 <= t < count ==> (t < self.head() <==> #[trigger] self.slots()[t] != Slot::Queued)
        &&& forall|t: int| #[trigger]
            self.outcomes().dom().contains(t) ==> 0 <= t < count && (self.slots()[t]
                == Slot::Dropped || self.slots()[t] == Slot::Recorded)
        &&& forall|t: int|
            0 <= t < count && (#[trigger] self.slots()[t] == Slot::Dropped || self.slots()[t]
                == Slot::Recorded) ==> self.outcomes().dom().contains(t)
        &&& forall|t: int|
            0 <= t < count && #[trigger] self.slots()[t] == Slot::Recorded
                ==> self.outcomes()[t] is Some
        &&& forall|t: int|
            0 <= t < count && #[trigger] self.slots()[t] == Slot::Dropped
                ==> self.outcomes()[t] is None
        &&& self.origins().len() == self.emitted().len()
        &&& forall|j: int|
            0 <= j < self.emitted().len() ==> {
                let t = #[trigger] self.origins()[j];
                &&& 0 <= t < count
                &&& self.slots()[t] == Slot::Recorded
                &&& self.emitted()[j].path@ == self.submitted()[t]
                &&& self.outcomes()[t] == Some(self.emitted()[j].digest@)
            }
        &&& forall|i: int, j: int|
            0 <= i < j < self.origins().len() ==> self.origins()[i] != self.origins()[j]
        &&& forall|t: int|
            0 <= t < count && #[trigger] self.slots()[t] == Slot::Recorded ==> exists|j: int|
                0 <= j < self.origins().len() && self.origins()[j] == t
    }

    /// Whether the run is over: enumeration is complete and every submitted
    /// path has been reported back.
    pub open spec fn spec_is_drained(&self) -> bool {
        &&& self.is_closed()
        &&& forall|t: int|
            0 <= t < self.slots().len() ==> #[trigger] self.slots()[t] == Slot::Dropped
                || self.slots()[t] == Slot::Recorded
    }

    /// A run with nothing submitted yet.
    pub fn new() -> (pipeline: Pipeline)
        ensures
            pipeline.wf(),
            pipeline.submitted().len() == 0,
            pipeline.emitted().len() == 0,
            !pipeline.is_closed(),
    {
        Pipeline {
            paths: Vec::new(),
            slots: Vec::new(),
            head: 0,
            closed: false,
            results: Vec::new(),
            origins: Ghost(Seq::empty()),
            outcomes: Ghost(Map::empty()),
        }
    }

    /// Puts a path at the end of the work queue. Once enumeration is
    /// complete nothing is accepted any more.
    pub fn submit(&mut self, path: String) -> (accepted: bool)
        requires
            old(self).wf(),
        ensures
            final(self).wf(),
            accepted == !old(self).is_closed(),
            final(self).is_closed() == old(self).is_closed(),
            final(self).head() == old(self).head(),
            final(self).emitted() == old(self).emitted(),
            final(self).origins() == old(self).origins(),
            final(self).outcomes() == old(self).outcomes(),
            accepted ==> final(self).submitted() == old(self).submitted().push(path@)
                && final(self).slots() == old(self).slots().push(Slot::Queued),
            !accepted ==> final(self).submitted() == old(self).submitted() && final(self).slots()
                == old(self).slots(),
    {
        if self.closed {
            return false;
        }
        self.paths.push(path);
        self.slots.push(Slot::Queued);
        proof {
            assert(self.submitted() =~= old(self).submitted().push(path@));
            assert forall|j: int| 0 <= j < self.emitted().len() implies self.emitted()[j].path@
                == self.submitted()[#[trigger] self.origins()[j]] by {
                assert(old(self).emitted()[j].path@ == old(self).submitted()[old(
                    self,
                ).origins()[j]]);
            }
            assert forall|t: int|
                0 <= t < self.submitted().len() && #[trigger] self.slots()[t]
                    == Slot::Recorded implies exists|j: int|
                0 <= j < self.origins().len() && self.origins()[j] == t by {
                assert(old(self).slots()[t] == Slot::Recorded);
            }
        }
        true
    }

    /// Marks enumeration as complete: the path source has nothing more to
    /// submit.
    pub fn close(&mut self)
        requires
            old(self).wf(),
        ensures
            final(self).wf(),
            final(self).is_closed(),
            final(self).submitted() == old(self).submitted(),
            final(self).slots() == old(self).slots(),
            final(self).head() == old(self).head(),
            final(self).emitted() == old(self).emitted(),
            final(self).origins() == old(self).origins(),
            final(self).outcomes() == old(self).outcomes(),
    {
        self.closed = true;
    }

    /// Decides what the asking worker does next. Whether enumeration is
    /// complete is looked at first, the queue after that: a worker is told
    /// to stop only if enumeration was complete and the queue empty. A path
    /// handed out leaves the queue, so no path is handed out twice.
    pub fn next(&mut self) -> (action: WorkerAction)
        requires
            old(self).wf(),
        ensures
            final(self).wf(),
            final(self).is_closed() == old(self).is_closed(),
            final(self).submitted() == old(self).submitted(),
            final(self).emitted() == old(self).emitted(),
            final(self).origins() == old(self).origins(),
            final(self).outcomes() == old(self).outcomes(),
            match action {
                WorkerAction::Digest { ticket, path } => {
                    &&& old(self).head() < old(self).submitted().len()
                    &&& ticket == old(self).head()
                    &&& path@ == old(self).submitted()[ticket as int]
                    &&& final(self).head() == old(self).head() + 1
                    &&& final(self).slots() == old(self).slots().update(
                        ticket as int,
                        Slot::Running,
                    )
                },
                WorkerAction::Wait => {
                    &&& old(self).head() == old(self).submitted().len()
                    &&& !old(self).is_closed()
                    &&& final(self).head() == old(self).head()
                    &&& final(self).slots() == old(self).slots()
                },
                WorkerAction::Exit => {
                    &&& old(self).head() == old(self).submitted().len()
                    &&& old(self).is_closed()
                    &&& final(self).head() == old(self).head()
                    &&& final(self).slots() == old(self).slots()
                },
            },
    {
        let complete = self.closed;
        if self.head < self.paths.len() {
            let ticket: usize = self.head;
            let path = self.paths[ticket].clone();
            self.slots.set(ticket, Slot::Running);
            self.head = ticket + 1;
            proof {
                assert forall|t: int|
                    0 <= t < self.submitted().len() && #[trigger] self.slots()[t]
                        == Slot::Recorded implies exists|j: int|
                    0 <= j < self.origins().len() && self.origins()[j] == t by {
                    assert(old(self).slots()[t] == Slot::Recorded);
                }
            }
            WorkerAction::Digest { ticket, path }
        } else if complete {
            WorkerAction::Exit
        } else {
            WorkerAction::Wait
        }
    }

    /// Takes a worker's report for a ticket: a digest, or none if the file
    /// could not be read. A report is accepted once per ticket handed out,
    /// and only an accepted report with a digest adds a record, so no path
    /// yields two records. A report for any other ticket changes nothing.
    pub fn complete(&mut self, ticket: usize, digest: Option<String>) -> (accepted: bool)
        requires
            old(self).wf(),
        ensures
            final(self).wf(),
            accepted == (ticket < old(self).slots().len() && old(self).slots()[ticket as int]
                == Slot::Running),
            final(self).is_closed() == old(self).is_closed(),
            final(self).submitted() == old(self).submitted(),
            final(self).head() == old(self).head(),
            !accepted ==> {
                &&& final(self).slots() == old(self).slots()
                &&& final(self).emitted() == old(self).emitted()
                &&& final(self).origins() == old(self).origins()
                &&& final(self).outcomes() == old(self).outcomes()
            },
            accepted ==> final(self).outcomes() == old(self).outcomes().insert(
                ticket as int,
                outcome_text(digest),
            ),
            accepted ==> match digest {
                Some(d) => {
                    &&& final(self).slots() == old(self).slots().update(
                        ticket as int,
                        Slot::Recorded,
                    )
                    &&& final(self).emitted().len() == old(self).emitted().len() + 1
                    &&& final(self).emitted().drop_last() == old(self).emitted()
                    &&& final(self).emitted().last().path@ == old(self).submitted()[ticket as int]
                    &&& final(self).emitted().last().digest@ == d@
                    &&& final(self).origins() == old(self).origins().push(ticket as int)
                },
                None => {
                    &&& final(self).slots() == old(self).slots().update(
                        ticket as int,
                        Slot::Dropped,
                    )
                    &&& final(self).emitted() == old(self).emitted()
                    &&& final(self).origins() == old(self).origins()
                },
            },
    {
        if ticket >= self.slots.len() {
            return false;
        }
        if self.slots[ticket] != Slot::Running {
            return false;
        }
        match digest {
            Some(d) => {
                let record = HashRecord { path: self.paths[ticket].clone(), digest: d };
                self.results.push(record);
                self.slots.set(ticket, Slot::Recorded);
                proof {
                    self.origins@ = self.origins@.push(ticket as int);
                    self.outcomes@ = self.outcomes@.insert(ticket as int, Some(d@));
                    assert(self.emitted().drop_last() =~= old(self).emitted());
                    assert forall|j: int| 0 <= j < self.emitted().len() implies {
                        let t = #[trigger] self.origins()[j];
                        &&& 0 <= t < self.submitted().len()
                        &&& self.slots()[t] == Slot::Recorded
                        &&& self.emitted()[j].path@ == self.submitted()[t]
                        &&& self.outcomes()[t] == Some(self.emitted()[j].digest@)
                    } by {
                        if j < old(self).emitted().len() {
                            let t = old(self).origins()[j];
                            assert(old(self).slots()[t] == Slot::Recorded);
                            assert(self.emitted()[j] == old(self).emitted()[j]);
                        }
                    }
                    assert forall|i: int, j: int|
                        0 <= i < j < self.origins().len() implies self.origins()[i]
                        != self.origins()[j] by {
                        if j == old(self).origins().len() {
                            assert(old(self).slots()[old(self).origins()[i]] == Slot::Recorded);
                        }
                    }
                    assert forall|t: int|
                        0 <= t < self.submitted().len() && #[trigger] self.slots()[t]
                            == Slot::Recorded implies exists|j: int|
                        0 <= j < self.origins().len() && self.origins()[j] == t by {
                        if t == ticket {
                            assert(self.origins()[old(self).origins().len() as int] == t);
                        } else {
                            assert(old(self).slots()[t] == Slot::Recorded);
                            let j = choose|j: int|
                                0 <= j < old(self).origins().len() && old(self).origins()[j] == t;
                            assert(self.origins()[j] == t);
                        }
                    }
                }
            },
            None => {
                self.slots.set(ticket, Slot::Dropped);
                proof {
                    self.outcomes@ = self.outcomes@.insert(ticket as int, None);
                    assert forall|j: int| 0 <= j < self.emitted().len() implies {
                        let t = #[trigger] self.origins()[j];
                        &&& 0 <= t < self.submitted().len()
                        &&& self.slots()[t] == Slot::Recorded
                        &&& self.emitted()[j].path@ == self.submitted()[t]
                        &&& self.outcomes()[t] == Some(self.emitted()[j].digest@)
                    } by {
                        let t = old(self).origins()[j];
                        assert(old(self).slots()[t] == Slot::Recorded);
                    }
                    assert forall|t: int|
                        0 <= t < self.submitted().len() && #[trigger] self.slots()[t]
                            == Slot::Recorded implies exists|j: int|
                        0 <= j < self.origins().len() && self.origins()[j] == t by {
                        assert(old(self).slots()[t] == Slot::Recorded);
                    }
                }
            },
        }
        true
    }

    /// Whether the run is over: enumeration is complete and every submitted
    /// path has been reported back.
    pub fn is_drained(&self) -> (drained: bool)
        requires
            self.wf(),
        ensures
            drained == self.spec_is_drained(),
    {
        if !self.closed {
            return false;
        }
        let mut t: usize = 0;
        while t < self.slots.len()
            invariant
                t <= self.slots.len(),
                forall|n: int|
                    0 <= n < t ==> #[trigger] self.slots@[n] == Slot::Dropped || self.slots@[n]
                        == Slot::Recorded,
            decreases self.slots.len() - t,
        {
            if self.slots[t] != Slot::Dropped && self.slots[t] != Slot::Recorded {
                return false;
            }
            t += 1;
        }
        true
    }

    /// Number of records in the result queue.
    pub fn emitted_len(&self) -> (n: usize)
        ensures
            n == self.emitted().len(),
    {
        self.results.len()
    }

    /// Hands over the result queue, in the order the records were reported.
    pub fn into_records(self) -> (records: Vec<HashRecord>)
        ensures
            records@ == self.emitted(),
    {
        self.results
    }
}

/// Whether a pair of path and digest is what some worker reported with a
/// digest.
pub open spec fn reported(pipeline: Pipeline, pair: (Seq<char>, Seq<char>)) -> bool {
    exists|t: int|
        0 <= t < pipeline.submitted().len() && #[trigger] pipeline.outcomes().dom().contains(t)
            && pipeline.submitted()[t] == pair.0 && pipeline.outcomes()[t] == Some(pair.1)
}

/// Whether position `j` of the result queue holds the given pair.
pub open spec fn emitted_at(pipeline: Pipeline, pair: (Seq<char>, Seq<char>), j: int) -> bool {
    0 <= j < pipeline.emitted().len() && pipeline.emitted()[j].path@ == pair.0
        && pipeline.emitted()[j].digest@ == pair.1
}

/// The result queue holds a pair exactly if a worker reported it: what is
/// emitted depends on the paths submitted and on what was reported for each,
/// not on the order in which workers took or finished them, nor on how many
/// workers there were.
pub proof fn lemma_emitted_is_what_was_reported(pipeline: Pipeline, pair: (Seq<char>, Seq<char>))
    requires
        pipeline.wf(),
    ensures
        (exists|j: int| emitted_at(pipeline, pair, j)) <==> reported(pipeline, pair),
{
    if exists|j: int| emitted_at(pipeline, pair, j) {
        let j = choose|j: int| emitted_at(pipeline, pair, j);
        let t = pipeline.origins()[j];
        assert(pipeline.slots()[t] == Slot::Recorded);
        assert(pipeline.outcomes().dom().contains(t));
    }
    if reported(pipeline, pair) {
        let t = choose|t: int|
            0 <= t < pipeline.submitted().len() && #[trigger] pipeline.outcomes().dom().contains(t)
                && pipeline.submitted()[t] == pair.0 && pipeline.outcomes()[t] == Some(pair.1);
        assert(pipeline.slots()[t] == Slot::Recorded);
        let j = choose|j: int| 0 <= j < pipeline.origins().len() && pipeline.origins()[j] == t;
        assert(pipeline.origins()[j] == t);
        assert(emitted_at(pipeline, pair, j));
    }
}

/// Two runs over the same paths in which the same was reported for each
/// path emit the same pairs, however the work was spread over workers.
pub proof fn lemma_runs_emit_the_same(
    first: Pipeline,
    second: Pipeline,
    pair: (Seq<char>, Seq<char>),
)
    requires
        first.wf(),
        second.wf(),
        first.submitted() == second.submitted(),
        first.outcomes() == second.outcomes(),
    ensures
        (exists|j: int| emitted_at(first, pair, j)) <==> (exists|j: int|
            emitted_at(second, pair, j)),
{
    lemma_emitted_is_what_was_reported(first, pair);
    lemma_emitted_is_what_was_reported(second, pair);
    if reported(first, pair) {
        let t = choose|t: int|
            0 <= t < first.submitted().len() && #[trigger] first.outcomes().dom().contains(t)
                && first.submitted()[t] == pair.0 && first.outcomes()[t] == Some(pair.1);
        assert(second.outcomes().dom().contains(t));
    }
    if reported(second, pair) {
        let t = choose|t: int|
            0 <= t < second.submitted().len() && #[trigger] second.outcomes().dom().contains(t)
                && second.submitted()[t] == pair.0 && second.outcomes()[t] == Some(pair.1);
        assert(first.outcomes().dom().contains(t));
    }
}

/// When a run is over, every submitted path has been handed out and
/// reported back, and each path reported with a digest has exactly one
/// record in the result queue: one is there, and no two records belong to
/// the same ticket.
pub proof fn lemma_drained_run_is_complete(pipeline: Pipeline)
    requires
        pipeline.wf(),
        pipeline.spec_is_drained(),
    ensures
        pipeline.head() == pipeline.submitted().len(),
        forall|t: int|
            0 <= t < pipeline.submitted().len() ==> #[trigger] pipeline.outcomes().dom().contains(
                t,
            ),
        forall|t: int|
            0 <= t < pipeline.submitted().len() && pipeline.outcomes()[t] is Some ==> exists|
                j: int,
            |
                0 <= j < pipeline.emitted().len() && #[trigger] pipeline.origins()[j] == t,
        forall|i: int, j: int|
            0 <= i < j < pipeline.emitted().len() ==> pipeline.origins()[i]
                != pipeline.origins()[j],
{
    let count = pipeline.submitted().len() as int;
    if pipeline.head() < count {
        assert(pipeline.slots()[pipeline.head()] == Slot::Queued);
    }
    assert forall|t: int| 0 <= t < count implies #[trigger] pipeline.outcomes().dom().contains(
        t,
    ) by {
        assert(pipeline.slots()[t] == Slot::Dropped || pipeline.slots()[t] == Slot::Recorded);
    }
    assert forall|t: int| 0 <= t < count && pipeline.outcomes()[t] is Some implies exists|j: int|
        0 <= j < pipeline.emitted().len() && #[trigger] pipeline.origins()[j] == t by {
        assert(pipeline.slots()[t] == Slot::Dropped || pipeline.slots()[t] == Slot::Recorded);
        assert(pipeline.slots()[t] == Slot::Recorded);
        let j = choose|j: int| 0 <= j < pipeline.origins().len() && pipeline.origins()[j] == t;
        assert(pipeline.origins()[j] == t);
    }
}

} // verus!
