//! The record that is kept of one supervised process.
//!
//! The process itself and the two buffers that collect its output are held
//! by the embedding program. The record holds what the session rules read:
//! whether the process runs, the port it was given and when a client last
//! touched it. Times are milliseconds on a clock that never goes back.

use crate::log_buffer::{LogBuffer, retained, tail_lines};
use vstd::prelude::*;

verus! {

/// How long a stop waits for the process to go away, in milliseconds.
pub const STOP_TIMEOUT_MS: u64 = 5000;

/// Whether a supervised process runs.
#[derive(Clone, Copy, Debug, PartialEq, Eq)]
pub enum ProcessState {
    /// The process has not been seen to exit.
    Running,
    /// The process was seen to have exited at this time.
    Exited { exited_at: u64 },
}

/// What an attempt to kill a process and to wait for its end came to.
#[derive(Debug)]
pub enum StopOutcome {
    /// The process is gone.
    Exited,
    /// The kill signal could not be sent; the text says why.
    KillFailed(String),
    /// Waiting for the process failed; the text says why.
    WaitFailed(String),
    /// The process was still there when the waiting time was over.
    TimedOut,
}

/// A session record as a mathematical value.
pub struct EntryView {
    pub state: ProcessState,
    pub port: u16,
    pub last_activity: u64,
}

/// The text with which a stop fails on the given outcome; `None` where the
/// stop succeeds.
pub open spec fn stop_failure(outcome: StopOutcome) -> Option<Seq<char>> {
    match outcome {
        StopOutcome::Exited => None,
        StopOutcome::KillFailed(reason) => Some(reason@),
        StopOutcome::WaitFailed(reason) => Some(reason@),
        StopOutcome::TimedOut => Some("Timeout waiting for process to exit"@),
    }
}

impl EntryView {
    /// The record of a process that has just been started.
    pub open spec fn started(port: u16, now: u64) -> EntryView {
        EntryView { state: ProcessState::Running, port, last_activity: now }
    }

    /// The process has not been seen to exit.
    pub open spec fn is_running(self) -> bool {
        self.state is Running
    }

    /// The record after a look at the process, which had exited or not.
    pub open spec fn polled(self, exited: bool, now: u64) -> EntryView {
        if self.is_running() && exited {
            EntryView { state: ProcessState::Exited { exited_at: now }, ..self }
        } else {
            self
        }
    }

    /// The record after a stop that came to `outcome`. A record that is not
    /// running is left as it is: there was nothing to stop.
    pub open spec fn stopped(self, outcome: StopOutcome, now: u64) -> EntryView {
        if self.is_running() && outcome is Exited {
            EntryView { state: ProcessState::Exited { exited_at: now }, ..self }
        } else {
            self
        }
    }

    /// The failure that a stop which came to `outcome` reports.
    pub open spec fn stop_result(self, outcome: StopOutcome) -> Option<Seq<char>> {
        if self.is_running() {
            stop_failure(outcome)
        } else {
            None
        }
    }

    /// The record with its port given up.
    pub open spec fn without_port(self) -> EntryView {
        EntryView { port: 0, ..self }
    }

    /// The record after a client touched it.
    pub open spec fn touched(self, now: u64) -> EntryView {
        EntryView { last_activity: now, ..self }
    }
}

/// The text that is shown of one output stream: the tail of its buffer, or
/// nothing where the buffer could not be had.
pub open spec fn log_text(buffer: Option<Seq<Seq<char>>>) -> Seq<char> {
    match buffer {
        Some(lines) => tail_lines(lines).flatten(),
        None => Seq::empty(),
    }
}

/// One supervised process.
#[derive(Clone, Copy, Debug, PartialEq, Eq)]
pub struct ServerEntry {
    state: ProcessState,
    port: u16,
    last_activity: u64,
}

impl View for ServerEntry {
    type V = EntryView;

    closed spec fn view(&self) -> EntryView {
        EntryView { state: self.state, port: self.port, last_activity: self.last_activity }
    }
}

impl ServerEntry {
    /// The record of a process that has just been started on `port`.
    pub fn new(port: u16, now: u64) -> (entry: Self)
        ensures
            entry@ == EntryView::started(port, now),
    {
        ServerEntry { state: ProcessState::Running, port, last_activity: now }
    }

    /// The port that the process was given; 0 once the port is released.
    pub fn port(&self) -> (port: u16)
        ensures
            port == self@.port,
    {
        self.port
    }

    /// When a client last touched the session.
    pub fn last_activity(&self) -> (at: u64)
        ensures
            at == self@.last_activity,
    {
        self.last_activity
    }

    /// Notes that a client touched the session.
    pub fn touch(&mut self, now: u64)
        ensures
            final(self)@ == old(self)@.touched(now),
    {
        self.last_activity = now;
    }

    /// Gives up the port.
    pub fn release_port(&mut self)
        ensures
            final(self)@ == old(self)@.without_port(),
    {
        self.port = 0;
    }

    /// Takes note of a look at the process: `exited` says whether it was
    /// found to have exited. Returns whether the record changed from
    /// running to exited.
    pub fn poll_exit(&mut self, exited: bool, now: u64) -> (changed: bool)
        ensures
            final(self)@ == old(self)@.polled(exited, now),
            changed == (old(self)@.is_running() && exited),
    {
        match self.state {
            ProcessState::Running => {
                if exited {
                    self.state = ProcessState::Exited { exited_at: now };
                    return true;
                }
            },
            ProcessState::Exited { .. } => {},
        }
        false
    }

    /// Whether the process has not been seen to exit.
    pub fn is_running(&self) -> (running: bool)
        ensures
            running == self@.is_running(),
    {
        match self.state {
            ProcessState::Running => true,
            ProcessState::Exited { .. } => false,
        }
    }

    /// When the process was seen to have exited, if it was.
    pub fn exited_at(&self) -> (at: Option<u64>)
        ensures
            at == match self@.state {
                ProcessState::Running => None,
                ProcessState::Exited { exited_at } => Some(exited_at),
            },
    {
        match self.state {
            ProcessState::Running => None,
            ProcessState::Exited { exited_at } => Some(exited_at),
        }
    }

    /// Takes note of a stop. For a running process `outcome` says what
    /// killing it and waiting for it came to: if the process is gone the
    /// record becomes exited, otherwise the record stays running and the
    /// failure is returned. A record that is not running is left as it is.
    pub fn stop(&mut self, outcome: StopOutcome, now: u64) -> (result: Result<(), String>)
        ensures
            final(self)@ == old(self)@.stopped(outcome, now),
            match result {
                Ok(_) => old(self)@.stop_result(outcome) is None,
                Err(reason) => old(self)@.stop_result(outcome) == Some(reason@),
            },
    {
        match self.state {
            ProcessState::Running => {
                match outcome {
                    StopOutcome::Exited => {
                        self.state = ProcessState::Exited { exited_at: now };
                        Ok(())
                    },
                    StopOutcome::KillFailed(reason) => Err(reason),
                    StopOutcome::WaitFailed(reason) => Err(reason),
                    StopOutcome::TimedOut => Err("Timeout waiting for process to exit".to_owned()),
                }
            },
            ProcessState::Exited { .. } => Ok(()),
        }
    }

    /// The text to show of the two output streams. A buffer that could not
    /// be had is given as `None` and shows as empty text.
    pub fn get_logs(&self, stdout: Option<&LogBuffer>, stderr: Option<&LogBuffer>) -> (logs: (
        String,
        String,
    ))
        ensures
            logs.0@ == log_text(
                match stdout {
                    Some(buffer) => Some(buffer@),
                    None => None,
                },
            ),
            logs.1@ == log_text(
                match stderr {
                    Some(buffer) => Some(buffer@),
                    None => None,
                },
            ),
    {
        let out = match stdout {
            Some(buffer) => buffer.tail().0,
            None => String::new(),
        };
        let err = match stderr {
            Some(buffer) => buffer.tail().0,
            None => String::new(),
        };
        (out, err)
    }
}

/// Stores one line of output that was read without its line end: the line
/// end is put back and the line is appended to `buffer`.
pub fn capture_line(buffer: &mut LogBuffer, line: String)
    requires
        old(buffer).wf(),
    ensures
        final(buffer).wf(),
        final(buffer)@ == retained(old(buffer)@.push(line@ + "\n"@)),
{
    buffer.push(line.concat("\n"));
}

} // verus!
