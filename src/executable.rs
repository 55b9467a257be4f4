use vstd::prelude::*;
use crate::validation::ExecutableName;

verus! {

/// What to run: a program and its arguments.
#[derive(Debug, Clone)]
pub struct CommandSpec {
    pub program: String,
    pub args: Vec<String>,
}

/// The declared executable: its name, a description and its command.
#[derive(Debug, Clone)]
pub struct ExecutableSpec {
    pub name: ExecutableName,
    pub description: String,
    pub command: CommandSpec,
}

/// The phases of an executable: not yet started, running as a process, or
/// stopped with an exit status.
#[derive(Debug, Clone, Copy, PartialEq, Eq, Structural)]
pub enum ExecutableState {
    Init,
    Started { pid: u32 },
    Stopped { exit_status: i32 },
}

/// A child process of a nested daemon, with its stdout and stderr drained
/// into the log channels named after it.
#[derive(Debug)]
pub struct Executable {
    pub name: ExecutableName,
    pub description: String,
    command: CommandSpec,
    state: ExecutableState,
}

impl Executable {
    pub closed spec fn state_view(self) -> ExecutableState {
        self.state
    }

    pub closed spec fn command_view(self) -> CommandSpec {
        self.command
    }

    pub closed spec fn name_view(self) -> Seq<char> {
        self.name@
    }

    pub closed spec fn description_view(self) -> Seq<char> {
        self.description@
    }

    pub fn new(spec: ExecutableSpec) -> (r: Self)
        ensures
            r.state_view() == ExecutableState::Init,
            r.name_view() == spec.name@,
            r.description_view() == spec.description@,
            r.command_view() == spec.command,
    {
        Executable {
            name: spec.name,
            description: spec.description,
            command: spec.command,
            state: ExecutableState::Init,
        }
    }

    pub fn state(&self) -> (r: ExecutableState)
        ensures
            r == self.state_view(),
    {
        self.state
    }

    /// The command to spawn; only an executable in `Init` is to be spawned.
    pub fn command(&self) -> (r: &CommandSpec)
        ensures
            *r == self.command_view(),
    {
        &self.command
    }

    /// The log channels that receive the process's stdout and stderr.
    pub fn log_channels(&self) -> (r: (String, String))
        ensures
            r.0@ == self.name_view() + "::stdout"@,
            r.1@ == self.name_view() + "::stderr"@,
    {
        let mut out = String::from_str(self.name.as_str());
        out.append("::stdout");
        let mut err = String::from_str(self.name.as_str());
        err.append("::stderr");
        (out, err)
    }

    /// Records the spawn of the process. Only an executable in `Init`
    /// changes: to `Started` with the pid, or not at all when the spawn
    /// failed, whose error is handed back. Otherwise nothing happens.
    pub fn start(&mut self, spawned: Result<u32, String>) -> (r: Result<(), String>)
        ensures
            final(self).name_view() == old(self).name_view(),
            old(self).state_view() != ExecutableState::Init ==> r is Ok && final(self).state_view()
                == old(self).state_view(),
            old(self).state_view() == ExecutableState::Init ==> match spawned {
                Ok(pid) => r is Ok && final(self).state_view() == ExecutableState::Started { pid },
                Err(e) => r == Err::<(), String>(e) && final(self).state_view() == ExecutableState::Init,
            },
    {
        match self.state {
            ExecutableState::Init => match spawned {
                Ok(pid) => {
                    self.state = ExecutableState::Started { pid };
                    Ok(())
                },
                Err(e) => Err(e),
            },
            _ => Ok(()),
        }
    }

    /// Records that the process was killed and reaped with `exit_status`,
    /// and gives the status of a stopped executable: `None` if it never
    /// started, the first recorded status once stopped.
    pub fn kill(&mut self, exit_status: i32) -> (r: Option<i32>)
        ensures
            final(self).name_view() == old(self).name_view(),
            match old(self).state_view() {
                ExecutableState::Init => r is None && final(self).state_view() == ExecutableState::Init,
                ExecutableState::Started { .. } => r == Some(exit_status) && final(self).state_view()
                    == ExecutableState::Stopped { exit_status },
                ExecutableState::Stopped { exit_status: s } => r == Some(s) && final(self).state_view()
                    == old(self).state_view(),
            },
    {
        match self.state {
            ExecutableState::Init => None,
            ExecutableState::Started { .. } => {
                self.state = ExecutableState::Stopped { exit_status };
                Some(exit_status)
            },
            ExecutableState::Stopped { exit_status: s } => Some(s),
        }
    }

    /// The pid while the process runs.
    pub fn pid(&self) -> (r: Option<u32>)
        ensures
            match self.state_view() {
                ExecutableState::Started { pid } => r == Some(pid),
                _ => r is None,
            },
    {
        match self.state {
            ExecutableState::Started { pid } => Some(pid),
            _ => None,
        }
    }
}

} // verus!
