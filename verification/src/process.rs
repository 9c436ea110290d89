//! Supervised processes: what is known of a spawned or exited child, how a
//! wait status is read, and which unit each running process belongs to.

use vstd::prelude::*;
use std::collections::HashMap;
use vstd::std_specs::hash::spec_keys_iter;
use vstd::std_specs::iter::IteratorSpec;

verus! {

broadcast use vstd::std_specs::hash::group_hash_axioms;

/// A spawned child process.
#[derive(Debug, Clone, Copy)]
pub struct ChildInfo {
    pub pid: i32,
}

/// The exit of a reaped child.
#[derive(Debug, Clone, Copy, PartialEq, Eq, Structural)]
pub struct ChildExit {
    pub pid: i32,
    pub status: i32,
    pub was_signaled: bool,
}

/// What one non-blocking wait for any child reported.
#[derive(Debug, Clone, Copy, PartialEq, Eq, Structural)]
pub enum WaitOutcome {
    /// A child exited with a status code.
    Exited { pid: i32, status: i32 },
    /// A child was killed by a signal.
    Signaled { pid: i32, signal: i32 },
    /// A child was stopped or continued.
    Other,
    /// Children exist, but none has changed state yet.
    StillRunning,
    /// There are no children left to wait for.
    NoChildren,
    /// The wait itself failed.
    Failed,
}

/// What reaping does with one wait outcome.
#[derive(Debug, Clone, Copy, PartialEq, Eq, Structural)]
pub enum ReapStep {
    /// Record this exit and wait again.
    Record(ChildExit),
    /// Nothing to record; wait again.
    Continue,
    /// Every child that has exited is reaped: stop without waiting.
    Done,
    /// Stop with an error.
    Fail,
}

/// An exit is recorded with its status; a death by signal `s` as status
/// 128 + s, marked as signaled. Reaping never blocks: it stops as soon as no
/// child has a state change left to report, or none is left at all.
pub fn reap_step(o: WaitOutcome) -> (r: ReapStep)
    requires
        o matches WaitOutcome::Signaled { signal, .. } ==> signal <= i32::MAX - 128,
    ensures
        r == match o {
            WaitOutcome::Exited { pid, status } => ReapStep::Record(
                ChildExit { pid, status, was_signaled: false },
            ),
            WaitOutcome::Signaled { pid, signal } => ReapStep::Record(
                ChildExit { pid, status: (128 + signal) as i32, was_signaled: true },
            ),
            WaitOutcome::Other => ReapStep::Continue,
            WaitOutcome::StillRunning => ReapStep::Done,
            WaitOutcome::NoChildren => ReapStep::Done,
            WaitOutcome::Failed => ReapStep::Fail,
        },
{
    match o {
        WaitOutcome::Exited { pid, status } => ReapStep::Record(
            ChildExit { pid, status, was_signaled: false },
        ),
        WaitOutcome::Signaled { pid, signal } => ReapStep::Record(
            ChildExit { pid, status: 128 + signal, was_signaled: true },
        ),
        WaitOutcome::Other => ReapStep::Continue,
        WaitOutcome::StillRunning => ReapStep::Done,
        WaitOutcome::NoChildren => ReapStep::Done,
        WaitOutcome::Failed => ReapStep::Fail,
    }
}

/// The map from running process ids to the names of their units.
pub struct ProcessTable {
    map: HashMap<i32, String>,
}

impl View for ProcessTable {
    type V = Map<i32, Seq<char>>;

    closed spec fn view(&self) -> Map<i32, Seq<char>> {
        self.map@.map_values(|n: String| n@)
    }
}

impl ProcessTable {
    pub fn new() -> (r: ProcessTable)
        ensures
            r@ == Map::<i32, Seq<char>>::empty(),
    {
        let r = ProcessTable { map: HashMap::new() };
        assert(r@ =~= Map::<i32, Seq<char>>::empty());
        r
    }

    pub fn len(&self) -> (r: usize)
        ensures
            r == self@.dom().len(),
    {
        assert(self@.dom() =~= self.map@.dom());
        self.map.len()
    }

    pub fn is_empty(&self) -> (r: bool)
        ensures
            r == (self@.dom().len() == 0),
    {
        self.len() == 0
    }

    pub fn get(&self, pid: i32) -> (r: Option<&String>)
        ensures
            match r {
                Some(n) => self@.dom().contains(pid) && n@ == self@[pid],
                None => !self@.dom().contains(pid),
            },
    {
        self.map.get(&pid)
    }

    pub fn insert(&mut self, pid: i32, name: String)
        ensures
            final(self)@ == old(self)@.insert(pid, name@),
    {
        let ghost nv = name@;
        self.map.insert(pid, name);
        assert(self@ =~= old(self)@.insert(pid, nv));
    }

    pub fn remove(&mut self, pid: i32) -> (r: Option<String>)
        ensures
            final(self)@ == old(self)@.remove(pid),
            match r {
                Some(n) => old(self)@.dom().contains(pid) && n@ == old(self)@[pid],
                None => !old(self)@.dom().contains(pid),
            },
    {
        let r = self.map.remove(&pid);
        assert(self@ =~= old(self)@.remove(pid));
        r
    }

    /// The process ids of the table, each once.
    pub fn pids(&self) -> (r: Vec<i32>)
        ensures
            r@.no_duplicates(),
            r@.to_set() == self@.dom(),
    {
        let mut out: Vec<i32> = Vec::new();
        for p in it: self.map.keys()
            invariant
                it.seq() == spec_keys_iter(&self.map).remaining(),
                out@ == it.seq().take(it.index() as int).map_values(|k: &i32| *k),
        {
            out.push(*p);
            proof {
                assert(out@ =~= it.seq().take(it.index() + 1).map_values(|k: &i32| *k));
            }
        }
        proof {
            let ks = spec_keys_iter(&self.map).remaining();
            assert(out@ =~= ks.unref());
            assert(self@.dom() =~= self.map@.dom());
        }
        out
    }
}

} // verus!
