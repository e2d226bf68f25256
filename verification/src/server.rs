//! One installed Paper server: where it lives, how it is started and stopped,
//! and the state the console keeps of it.
use vstd::prelude::*;
use crate::paths;
use crate::paths::join_path;
use crate::text;
use crate::text::decimal_string;

verus! {

/// Errors from the files of the server directory.
#[derive(Debug, PartialEq, Eq)]
pub enum ServerErrors {
    FsError(String),
}

/// What an action on a server came to.
#[derive(Debug, PartialEq, Eq)]
pub enum Status {
    CreateOk,
    CreateFail(String),
    RunOk,
    RunFail(String),
    StopOk,
    StopFail(String),
}

/// What the process table says of the process that a server last ran as.
#[derive(Debug, PartialEq, Eq, Clone, Copy)]
pub enum ProcessState {
    /// No process has that id.
    Absent,
    /// The process has ended and waits to be reaped.
    Zombie,
    /// The process is alive.
    Alive,
}

/// The state kept of one server, saved as `server_data.json` in its directory.
#[derive(Debug)]
pub struct Server {
    pub working_directory: String,
    pub properties_path: String,
    pub installed_plugins: Vec<String>,
    pub version: String,
    pub port: i64,
    pub pid: usize,
    /// Whether the console has it running.
    pub active: bool,
}

/// The shell command that starts a server listening on `port`: it feeds the
/// server the lines written to `input_fifo` and sends its output to
/// `server_output`.
pub open spec fn start_command_of(port: int) -> Seq<char> {
    "while [ 1 ] ; do cat input_fifo ; done | java -jar paper.jar --nogui --port "@ + text::int_decimal(
        port,
    ) + " > server_output"@
}

/// The message with which a server that still runs refuses to start again.
pub open spec fn still_running_message() -> Seq<char> {
    "LMAO DYING WTF?"@
}

impl Server {
    /// A newly installed server named `server_name` under `install_directory`,
    /// listening on `port`: its directory is the two joined, everything else is
    /// empty, zero or inactive.
    pub fn create_new_server(server_name: &str, port: i64, install_directory: &str) -> (s: Server)
        ensures
            s.working_directory@ == paths::joined(install_directory@, server_name@),
            s.port == port,
            s.properties_path@.len() == 0,
            s.installed_plugins@.len() == 0,
            s.version@.len() == 0,
            s.pid == 0,
            !s.active,
    {
        Server {
            working_directory: join_path(install_directory, server_name),
            properties_path: String::new(),
            installed_plugins: Vec::new(),
            version: String::new(),
            port,
            pid: 0,
            active: false,
        }
    }

    /// The path of `file` in the server's directory.
    pub fn file_path(&self, file: &str) -> (p: String)
        ensures
            p@ == paths::joined(self.working_directory@, file@),
    {
        join_path(self.working_directory.as_str(), file)
    }

    /// The command that starts this server.
    pub fn start_command(&self) -> (c: String)
        ensures
            c@ == start_command_of(self.port as int),
    {
        let mut c = "while [ 1 ] ; do cat input_fifo ; done | java -jar paper.jar --nogui --port ".to_owned();
        let port = decimal_string(self.port);
        c.append(port.as_str());
        c.append(" > server_output");
        c
    }

    /// Whether the server may be started, given what the process table says of
    /// the process it last ran as: the command to start it, or, while that
    /// process is alive, `RunFail`.
    pub fn run_self(&self, process: ProcessState) -> (r: Result<String, Status>)
        ensures
            process == ProcessState::Alive ==> (r matches Err(Status::RunFail(m)) && m@
                == still_running_message()),
            process != ProcessState::Alive ==> (r matches Ok(c) && c@ == start_command_of(
                self.port as int,
            )),
    {
        match process {
            ProcessState::Alive => Err(Status::RunFail("LMAO DYING WTF?".to_owned())),
            _ => Ok(self.start_command()),
        }
    }

    /// The server has been started as process `pid`: it is active and runs as
    /// that process; nothing else changes.
    pub fn record_started(&mut self, pid: u32) -> (st: Status)
        ensures
            final(self).active,
            final(self).pid == pid,
            final(self).working_directory == old(self).working_directory,
            final(self).properties_path == old(self).properties_path,
            final(self).installed_plugins == old(self).installed_plugins,
            final(self).version == old(self).version,
            final(self).port == old(self).port,
            st == Status::RunOk,
    {
        self.active = true;
        self.pid = pid as usize;
        Status::RunOk
    }

    /// The server has been told to stop: it is no longer active; nothing else
    /// changes.
    pub fn stop_self(&mut self) -> (st: Status)
        ensures
            !final(self).active,
            final(self).pid == old(self).pid,
            final(self).working_directory == old(self).working_directory,
            final(self).properties_path == old(self).properties_path,
            final(self).installed_plugins == old(self).installed_plugins,
            final(self).version == old(self).version,
            final(self).port == old(self).port,
            st == Status::StopOk,
    {
        self.active = false;
        Status::StopOk
    }
}

} // verus!
