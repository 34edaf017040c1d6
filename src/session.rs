use vstd::prelude::*;
use crate::schedule::{pair_paths, paths, scheduled_pairs, lemma_schedule_is_permutation, Manager};

verus! {

/// Why one rename of the batch failed.
pub enum Reason {
    /// The destination holds another file.
    Exists,
    /// The rename itself failed; the system's message.
    Io(String),
    /// The file was renamed, but its information could not be read afterwards.
    NoInfo,
}

/// What the operator reads for a reason.
pub open spec fn reason_text(r: Reason) -> Seq<char> {
    match r {
        Reason::Exists => "Destination already exists"@,
        Reason::Io(m) => m@,
        Reason::NoInfo => "Failed to retrieve file info"@,
    }
}

impl Reason {
    /// What the operator reads for this reason.
    pub fn message(&self) -> (r: String)
        ensures
            r@ == reason_text(*self),
    {
        match self {
            Reason::Exists => "Destination already exists".to_owned(),
            Reason::Io(m) => m.clone(),
            Reason::NoInfo => "Failed to retrieve file info".to_owned(),
        }
    }
}

/// A failed rename: its position in the execution order, and why.
pub struct Failure {
    pub index: usize,
    pub reason: Reason,
}

/// Where a batch stands.
#[derive(Clone, Copy)]
pub enum Phase {
    /// The order is shown; waiting for the operator's answer.
    Confirming,
    /// Waiting to learn whether another file holds the destination of a pair.
    Probing(usize),
    /// Waiting for the rename of a pair.
    Renaming(usize),
    /// Waiting for the file information at the destination of a renamed pair.
    Inspecting(usize),
    /// The failures are shown; waiting for the operator.
    Reporting,
    /// Nothing more to do.
    Done,
}

/// What the caller is to do next.
pub enum Action {
    /// The counts of old and new names differ: say so and stop. Nothing is renamed.
    Mismatch,
    /// Show the order and ask whether to go on.
    Confirm,
    /// Find out whether the destination of this pair exists and is another file
    /// than its source.
    Probe(usize),
    /// Rename this pair.
    Rename(usize),
    /// Read the file information at the destination of this pair.
    Inspect(usize),
    /// Show the failures and wait for the operator.
    Report,
    /// The batch is over.
    Done,
}

/// What the caller learnt in doing the last action.
pub enum Event {
    /// The first byte that the operator typed.
    Answer(u8),
    /// Whether another file holds the destination.
    Probed(bool),
    /// The outcome of the rename, with the system's message on failure.
    Renamed(Result<(), String>),
    /// Whether the file information could be read.
    Inspected(bool),
    /// The operator has read the report.
    Acknowledged,
}

/// Whether `b` answers a yes/no prompt with yes.
pub open spec fn yes(b: u8) -> bool {
    b == 0x79u8 || b == 0x59u8
}

/// Whether `b` answers a yes/no prompt with yes (`y` or `Y`).
pub fn is_yes(b: u8) -> (r: bool)
    ensures
        r == yes(b),
{
    b == 0x79u8 || b == 0x59u8
}

/// Where the pass goes on at position `i` of the order: the next pair, probed
/// first unless it renames a path onto itself; after the last pair, the report
/// if anything failed.
pub open spec fn enter(todo: Seq<(Seq<char>, Seq<char>)>, i: int, any_failed: bool) -> (Phase, Action) {
    if i >= todo.len() {
        if any_failed {
            (Phase::Reporting, Action::Report)
        } else {
            (Phase::Done, Action::Done)
        }
    } else if todo[i].0 == todo[i].1 {
        (Phase::Renaming(i as usize), Action::Rename(i as usize))
    } else {
        (Phase::Probing(i as usize), Action::Probe(i as usize))
    }
}

/// The action that a phase waits on.
pub open spec fn waits_on(p: Phase) -> Action {
    match p {
        Phase::Confirming => Action::Confirm,
        Phase::Probing(i) => Action::Probe(i),
        Phase::Renaming(i) => Action::Rename(i),
        Phase::Inspecting(i) => Action::Inspect(i),
        Phase::Reporting => Action::Report,
        Phase::Done => Action::Done,
    }
}

/// One bulk rename: the order, where it stands, and what came of each pair.
pub struct BulkRename {
    /// The `(old, new)` pairs in execution order.
    pub todo: Vec<(String, String)>,
    pub phase: Phase,
    /// The failures, in execution order.
    pub failed: Vec<Failure>,
    /// The positions of the renamed pairs, in execution order.
    pub succeeded: Vec<usize>,
}

impl BulkRename {
    /// The pairs as paths.
    pub open spec fn pairs(&self) -> Seq<(Seq<char>, Seq<char>)> {
        pair_paths(self.todo@)
    }

    /// Pair `i` renames a path onto itself.
    pub open spec fn same_path(&self, i: int) -> bool {
        self.todo@[i].0@ == self.todo@[i].1@
    }

    /// Positions in range; a collision is never reported for a pair that
    /// renames a path onto itself.
    pub open spec fn wf(&self) -> bool {
        &&& match self.phase {
            Phase::Probing(i) => i < self.todo@.len() && !self.same_path(i as int),
            Phase::Renaming(i) => i < self.todo@.len(),
            Phase::Inspecting(i) => i < self.todo@.len(),
            _ => true,
        }
        &&& forall|k: int|
            0 <= k < self.failed@.len() ==> #[trigger] self.failed@[k].index < self.todo@.len()
        &&& forall|k: int|
            0 <= k < self.failed@.len() && (#[trigger] self.failed@[k]).reason is Exists
                ==> !self.same_path(self.failed@[k].index as int)
        &&& forall|k: int|
            0 <= k < self.succeeded@.len() ==> #[trigger] self.succeeded@[k] < self.todo@.len()
    }

    /// The failures and the renamed pairs are as in `other`.
    pub open spec fn kept(self, other: Self) -> bool {
        self.failed == other.failed && self.succeeded == other.succeeded
    }

    /// Starts a batch that renames `old[i]` to `new[i]`. The counts must
    /// match; else the batch stops at once and renames nothing. An empty batch
    /// is over at once; any other waits for confirmation.
    pub fn start(old: Vec<String>, new: Vec<String>) -> (r: (Self, Action))
        requires
            paths(old@).no_duplicates(),
        ensures
            r.0.wf(),
            r.0.failed@.len() == 0,
            r.0.succeeded@.len() == 0,
            old@.len() != new@.len() ==> r.0.todo@.len() == 0 && r.0.phase is Done && r.1 is Mismatch,
            old@.len() == new@.len() ==> r.0.pairs() == scheduled_pairs(paths(old@), paths(new@)),
            old@.len() == new@.len() && old@.len() == 0 ==> r.0.phase is Done && r.1 is Done,
            old@.len() == new@.len() && old@.len() > 0 ==> r.0.phase is Confirming && r.1 is Confirm,
    {
        if old.len() != new.len() {
            return (
                BulkRename { todo: Vec::new(), phase: Phase::Done, failed: Vec::new(), succeeded: Vec::new() },
                Action::Mismatch,
            );
        }
        proof {
            lemma_schedule_is_permutation(paths(old@), paths(new@));
        }
        let ghost len = old@.len();
        let todo = Manager::sort(old, new);
        assert(pair_paths(todo@).len() == len);
        if todo.len() == 0 {
            (BulkRename { todo, phase: Phase::Done, failed: Vec::new(), succeeded: Vec::new() }, Action::Done)
        } else {
            (
                BulkRename { todo, phase: Phase::Confirming, failed: Vec::new(), succeeded: Vec::new() },
                Action::Confirm,
            )
        }
    }

    /// Takes what came of the last action and says what to do next. An event
    /// that the phase does not wait on changes nothing, and the action waited
    /// on is asked again.
    pub fn step(&mut self, ev: Event) -> (r: Action)
        requires
            old(self).wf(),
        ensures
            final(self).wf(),
            final(self).todo == old(self).todo,
            r == waits_on(final(self).phase),
            match (old(self).phase, ev) {
                (Phase::Confirming, Event::Answer(b)) => if yes(b) {
                    final(self).kept(*old(self)) && (final(self).phase, r) == enter(
                        old(self).pairs(),
                        0,
                        old(self).failed@.len() > 0,
                    )
                } else {
                    final(self).kept(*old(self)) && final(self).phase is Done && r is Done
                },
                (Phase::Probing(i), Event::Probed(taken)) => if taken {
                    &&& final(self).failed@ == old(self).failed@.push(
                        (Failure { index: i, reason: Reason::Exists }),
                    )
                    &&& final(self).succeeded == old(self).succeeded
                    &&& (final(self).phase, r) == enter(old(self).pairs(), i + 1, true)
                } else {
                    final(self).kept(*old(self)) && final(self).phase == Phase::Renaming(i) && r
                        == Action::Rename(i)
                },
                (Phase::Renaming(i), Event::Renamed(Ok(()))) => final(self).kept(*old(self))
                    && final(self).phase == Phase::Inspecting(i) && r == Action::Inspect(i),
                (Phase::Renaming(i), Event::Renamed(Err(m))) => {
                    &&& final(self).failed@ == old(self).failed@.push(
                        (Failure { index: i, reason: Reason::Io(m) }),
                    )
                    &&& final(self).succeeded == old(self).succeeded
                    &&& (final(self).phase, r) == enter(old(self).pairs(), i + 1, true)
                },
                (Phase::Inspecting(i), Event::Inspected(found)) => if found {
                    &&& final(self).failed == old(self).failed
                    &&& final(self).succeeded@ == old(self).succeeded@.push(i)
                    &&& (final(self).phase, r) == enter(
                        old(self).pairs(),
                        i + 1,
                        old(self).failed@.len() > 0,
                    )
                } else {
                    &&& final(self).failed@ == old(self).failed@.push(
                        (Failure { index: i, reason: Reason::NoInfo }),
                    )
                    &&& final(self).succeeded == old(self).succeeded
                    &&& (final(self).phase, r) == enter(old(self).pairs(), i + 1, true)
                },
                (Phase::Reporting, Event::Acknowledged) => final(self).kept(*old(self))
                    && final(self).phase is Done && r is Done,
                _ => final(self).kept(*old(self)) && final(self).phase == old(self).phase && r
                    == waits_on(old(self).phase),
            },
    {
        let phase = self.phase;
        // Positions stay below the length of the order, so `i + 1` fits.
        let total = self.todo.len();
        match (phase, ev) {
            (Phase::Confirming, Event::Answer(b)) => {
                if is_yes(b) {
                    self.enter_at(0)
                } else {
                    self.phase = Phase::Done;
                    Action::Done
                }
            },
            (Phase::Probing(i), Event::Probed(taken)) => {
                if taken {
                    assert(i < total);
                    self.failed.push(Failure { index: i, reason: Reason::Exists });
                    self.enter_at(i + 1)
                } else {
                    self.phase = Phase::Renaming(i);
                    Action::Rename(i)
                }
            },
            (Phase::Renaming(i), Event::Renamed(Ok(()))) => {
                self.phase = Phase::Inspecting(i);
                Action::Inspect(i)
            },
            (Phase::Renaming(i), Event::Renamed(Err(m))) => {
                assert(i < total);
                self.failed.push(Failure { index: i, reason: Reason::Io(m) });
                self.enter_at(i + 1)
            },
            (Phase::Inspecting(i), Event::Inspected(found)) => {
                assert(i < total);
                if found {
                    self.succeeded.push(i);
                } else {
                    self.failed.push(Failure { index: i, reason: Reason::NoInfo });
                }
                self.enter_at(i + 1)
            },
            (Phase::Reporting, Event::Acknowledged) => {
                self.phase = Phase::Done;
                Action::Done
            },
            _ => self.waiting(),
        }
    }

    /// The action that the current phase waits on.
    fn waiting(&self) -> (r: Action)
        ensures
            r == waits_on(self.phase),
    {
        match self.phase {
            Phase::Confirming => Action::Confirm,
            Phase::Probing(i) => Action::Probe(i),
            Phase::Renaming(i) => Action::Rename(i),
            Phase::Inspecting(i) => Action::Inspect(i),
            Phase::Reporting => Action::Report,
            Phase::Done => Action::Done,
        }
    }

    /// The line that shows pair `i` of the order: `old -> new`.
    pub fn plan_line(&self, i: usize) -> (r: String)
        requires
            i < self.todo@.len(),
        ensures
            r@ == self.pairs()[i as int].0 + " -> "@ + self.pairs()[i as int].1,
    {
        let pair = &self.todo[i];
        pair.0.clone().concat(" -> ").concat(pair.1.as_str())
    }

    /// The line that reports failure `k`: `old -> new: reason`.
    pub fn failure_line(&self, k: usize) -> (r: String)
        requires
            self.wf(),
            k < self.failed@.len(),
        ensures
            r@ == self.pairs()[self.failed@[k as int].index as int].0 + " -> "@ + self.pairs()[self.failed@[
                k as int].index as int].1 + ": "@ + reason_text(self.failed@[k as int].reason),
    {
        let failure = &self.failed[k];
        let line = self.plan_line(failure.index);
        line.concat(": ").concat(failure.reason.message().as_str())
    }

    /// Goes on at position `i` of the order.
    fn enter_at(&mut self, i: usize) -> (r: Action)
        requires
            old(self).wf(),
            i <= old(self).todo@.len(),
        ensures
            final(self).wf(),
            final(self).todo == old(self).todo,
            final(self).failed == old(self).failed,
            final(self).succeeded == old(self).succeeded,
            (final(self).phase, r) == enter(old(self).pairs(), i as int, old(self).failed@.len() > 0),
            r == waits_on(final(self).phase),
    {
        if i >= self.todo.len() {
            if self.failed.len() > 0 {
                self.phase = Phase::Reporting;
                Action::Report
            } else {
                self.phase = Phase::Done;
                Action::Done
            }
        } else if self.todo[i].0 == self.todo[i].1 {
            self.phase = Phase::Renaming(i);
            Action::Rename(i)
        } else {
            self.phase = Phase::Probing(i);
            Action::Probe(i)
        }
    }
}

/// A batch whose order is empty, as `start` leaves it when the counts of old
/// and new names differ and as `step` keeps it, never asks for a change on disk.
pub proof fn lemma_empty_batch_renames_nothing(b: BulkRename)
    requires
        b.wf(),
        b.todo@.len() == 0,
    ensures
        !(waits_on(b.phase) is Probe),
        !(waits_on(b.phase) is Rename),
        !(waits_on(b.phase) is Inspect),
{
}

/// A pair that renames a path onto itself is never reported as a collision,
/// in any state that the batch reaches.
pub proof fn lemma_same_path_never_collides(b: BulkRename, k: int)
    requires
        b.wf(),
        0 <= k < b.failed@.len(),
        b.same_path(b.failed@[k].index as int),
    ensures
        !(b.failed@[k].reason is Exists),
{
}

} // verus!
