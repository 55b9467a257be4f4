use vstd::prelude::*;
use crate::error::{CellsError, ErrorKind};
use crate::name::CellName;

verus! {

/// The kernel resources of one cell that are to be released: its nested
/// daemon and its cgroup.
#[derive(Debug)]
pub struct Release {
    pub cell_name: CellName,
    pub pid: i32,
}

/// The next piece of kernel work the caller is to perform.
#[derive(Debug)]
pub enum Action {
    /// Stop the daemon `pid` and wait for it: gracefully (a terminate
    /// signal, escalated to a kill after a bounded wait) or by a kill.
    Stop { pid: i32, graceful: bool },
    /// Remove the cgroup directory of the cell.
    RemoveCgroup { cell_name: CellName },
    /// Nothing is left to do.
    Finished,
}

/// What a teardown is at some point.
pub struct TeardownView {
    pub names: Seq<Seq<Seq<char>>>,
    pub pids: Seq<i32>,
    pub graceful: bool,
    /// The release being worked on.
    pub pos: int,
    /// Whether its daemon has been stopped already.
    pub stopped: bool,
    /// The first failure, as its kind, the cell it names and its source.
    pub error: Option<(ErrorKind, Seq<Seq<char>>, Seq<char>)>,
}

/// Drives the release of a list of cells, one after the other: stop the
/// daemon, then, once it is confirmed gone, remove the cgroup. A failure
/// does not halt the teardown; the first one is kept and surfaced at the
/// end.
#[derive(Debug)]
pub struct Teardown {
    releases: Vec<Release>,
    graceful: bool,
    pos: usize,
    stopped: bool,
    error: Option<CellsError>,
}

impl View for Teardown {
    type V = TeardownView;

    closed spec fn view(&self) -> TeardownView {
        TeardownView {
            names: self.releases@.map_values(|r: Release| r.cell_name@),
            pids: self.releases@.map_values(|r: Release| r.pid),
            graceful: self.graceful,
            pos: self.pos as int,
            stopped: self.stopped,
            error: match self.error {
                Some(e) => Some((e.kind_of(), e.name_of(), e.source_of())),
                None => None,
            },
        }
    }
}

impl Teardown {
    pub closed spec fn wf(self) -> bool {
        &&& self.pos <= self.releases@.len()
        &&& self.pos == self.releases@.len() ==> !self.stopped
    }

    /// A teardown of `releases`, in their order, with nothing done yet.
    pub fn new(releases: Vec<Release>, graceful: bool) -> (r: Self)
        ensures
            r.wf(),
            r@.names == releases@.map_values(|x: Release| x.cell_name@),
            r@.pids == releases@.map_values(|x: Release| x.pid),
            r@.graceful == graceful,
            r@.pos == 0,
            !r@.stopped,
            r@.error is None,
    {
        Teardown { releases, graceful, pos: 0, stopped: false, error: None }
    }

    /// How many cells are to be released.
    pub fn len(&self) -> (r: usize)
        ensures
            r == self@.names.len(),
    {
        self.releases.len()
    }

    pub fn is_finished(&self) -> (r: bool)
        requires
            self.wf(),
        ensures
            r == (self@.pos == self@.names.len()),
    {
        self.pos == self.releases.len()
    }

    /// What is to be done now: stop the daemon of the current cell, then
    /// remove its cgroup, then go on with the next cell.
    pub fn next_action(&self) -> (r: Action)
        requires
            self.wf(),
        ensures
            self@.pos == self@.names.len() <==> r is Finished,
            r matches Action::Stop { pid, graceful } ==> !self@.stopped && pid == self@.pids[self@.pos]
                && graceful == self@.graceful,
            r matches Action::RemoveCgroup { cell_name } ==> self@.stopped && cell_name@
                == self@.names[self@.pos],
            self@.pos < self@.names.len() ==> (r is Stop <==> !self@.stopped),
    {
        if self.pos == self.releases.len() {
            return Action::Finished;
        }
        let rel = &self.releases[self.pos];
        if !self.stopped {
            Action::Stop { pid: rel.pid, graceful: self.graceful }
        } else {
            Action::RemoveCgroup { cell_name: rel.cell_name.clone() }
        }
    }

    /// Records how the current action went. A stopped daemon lets its
    /// cgroup be removed next; a daemon that could not be stopped keeps its
    /// cgroup, and the teardown goes on with the next cell. The first failure
    /// is kept.
    pub fn report(&mut self, outcome: Result<(), String>)
        requires
            old(self).wf(),
            old(self)@.pos < old(self)@.names.len(),
        ensures
            final(self).wf(),
            final(self)@.names == old(self)@.names,
            final(self)@.pids == old(self)@.pids,
            final(self)@.graceful == old(self)@.graceful,
            !old(self)@.stopped && outcome is Ok ==> final(self)@.pos == old(self)@.pos
                && final(self)@.stopped,
            !(!old(self)@.stopped && outcome is Ok) ==> final(self)@.pos == old(self)@.pos + 1
                && !final(self)@.stopped,
            final(self)@.error == if old(self)@.error is Some || outcome is Ok {
                old(self)@.error
            } else if old(self)@.stopped {
                Some(
                    (
                        ErrorKind::FailedToFreeCell,
                        old(self)@.names[old(self)@.pos],
                        outcome->Err_0@,
                    ),
                )
            } else {
                Some(
                    (
                        ErrorKind::FailedToKillCellChildren,
                        old(self)@.names[old(self)@.pos],
                        outcome->Err_0@,
                    ),
                )
            },
    {
        let ghost before = *self;
        let i = self.pos;
        let n = self.releases.len();
        assert(i < n);
        match outcome {
            Ok(()) => {
                if !self.stopped {
                    self.stopped = true;
                } else {
                    self.stopped = false;
                    self.pos = i + 1;
                }
            },
            Err(source) => {
                if self.error.is_none() {
                    let cell_name = self.releases[i].cell_name.clone();
                    let e = if self.stopped {
                        CellsError::FailedToFreeCell { cell_name, source }
                    } else {
                        CellsError::FailedToKillCellChildren { cell_name, source }
                    };
                    self.error = Some(e);
                }
                self.stopped = false;
                self.pos = i + 1;
            },
        }
        proof {
            assert(self@.names =~= before@.names);
            assert(self@.pids =~= before@.pids);
        }
    }

    /// The outcome of the whole teardown: the first failure, if any.
    pub fn into_result(self) -> (r: Result<(), CellsError>)
        ensures
            r is Ok <==> self@.error is None,
            r is Err ==> Some((r->Err_0.kind_of(), r->Err_0.name_of(), r->Err_0.source_of()))
                == self@.error,
    {
        match self.error {
            Some(e) => Err(e),
            None => Ok(()),
        }
    }
}

} // verus!
