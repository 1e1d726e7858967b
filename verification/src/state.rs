//! Where the wrapped shell is in its prompt, command, exit cycle, and what it
//! last told about itself.

use vstd::prelude::*;

use crate::schema;

verus! {

/// Where the wrapped shell is in its lifecycle.
#[derive(Debug, Clone, Copy, PartialEq, Eq, Structural)]
pub enum ShellState {
    /// Wrapper started but the shell hasn't drawn its first prompt yet, or a
    /// command has finished and the next prompt is still to come.
    PrePrompt,
    /// A prompt is on screen; the user may be typing into it.
    AtPrompt,
    /// User pressed Enter; a command is executing.
    CommandRunning,
}

/// The shell-lifecycle state that the threads of the wrapper share.
#[derive(Debug)]
pub struct SharedState {
    state: ShellState,
    cwd: Option<String>,
    /// Exit code of the most-recently completed command. `None` before
    /// any command has finished.
    last_exit: Option<i32>,
    line: String,
    cursor: usize,
}

/// What a [`SharedState`] stands for.
pub struct StateView {
    pub state: ShellState,
    pub cwd: Option<Seq<char>>,
    pub last_exit: Option<i32>,
    pub line: Seq<char>,
    pub cursor: int,
}

/// The state before anything was heard from the shell.
pub open spec fn fresh_state() -> StateView {
    StateView { state: ShellState::PrePrompt, cwd: None, last_exit: None, line: seq![], cursor: 0 }
}

impl StateView {
    /// The prompt is being drawn.
    pub open spec fn prompt_started(self) -> StateView {
        StateView { state: ShellState::AtPrompt, ..self }
    }

    /// The prompt is complete. A shell that marks only this still ends up at
    /// its prompt.
    pub open spec fn input_started(self) -> StateView {
        if self.state is PrePrompt {
            self.prompt_started()
        } else {
            self
        }
    }

    /// A command is running.
    pub open spec fn command_started(self) -> StateView {
        StateView { state: ShellState::CommandRunning, ..self }
    }

    /// The command has finished; an exit code, if reported, replaces the last.
    pub open spec fn command_done(self, exit_code: Option<i32>) -> StateView {
        StateView {
            state: ShellState::PrePrompt,
            last_exit: if exit_code is Some {
                exit_code
            } else {
                self.last_exit
            },
            ..self
        }
    }

    /// The working directory has changed.
    pub open spec fn moved_to(self, cwd: Seq<char>) -> StateView {
        StateView { cwd: Some(cwd), ..self }
    }
}

impl View for SharedState {
    type V = StateView;

    closed spec fn view(&self) -> StateView {
        StateView {
            state: self.state,
            cwd: schema::opt_text(self.cwd),
            last_exit: self.last_exit,
            line: self.line@,
            cursor: self.cursor as int,
        }
    }
}

impl Default for SharedState {
    fn default() -> (r: Self)
        ensures
            r@ == fresh_state(),
    {
        Self::new()
    }
}

impl SharedState {
    pub fn new() -> (r: Self)
        ensures
            r@ == fresh_state(),
    {
        SharedState { state: ShellState::PrePrompt, cwd: None, last_exit: None, line: String::new(), cursor: 0 }
    }

    pub fn current_state(&self) -> (r: ShellState)
        ensures
            r == self@.state,
    {
        self.state
    }

    pub fn current_cwd(&self) -> (r: Option<String>)
        ensures
            schema::opt_text(r) == self@.cwd,
    {
        schema::clone_text(&self.cwd)
    }

    pub fn last_exit(&self) -> (r: Option<i32>)
        ensures
            r == self@.last_exit,
    {
        self.last_exit
    }

    /// The command line as last reported, and the cursor in it.
    pub fn current_line(&self) -> (r: (String, usize))
        ensures
            r.0@ == self@.line,
            r.1 == self@.cursor,
    {
        (self.line.clone(), self.cursor)
    }

    /// The command line or its cursor has changed.
    pub fn on_line_update(&mut self, line: String, cursor: usize)
        ensures
            final(self)@ == (StateView { line: line@, cursor: cursor as int, ..old(self)@ }),
    {
        self.line = line;
        self.cursor = cursor;
    }

    /// OSC 133 A: prompt is starting. Always transitions to AtPrompt.
    pub fn on_prompt_start(&mut self)
        ensures
            final(self)@ == old(self)@.prompt_started(),
    {
        self.state = ShellState::AtPrompt;
    }

    /// OSC 133 B: end-of-prompt / start-of-input marker. Doesn't
    /// transition state, except that a shell that emits only B still ends up
    /// AtPrompt.
    pub fn on_command_input_marker(&mut self)
        ensures
            final(self)@ == old(self)@.input_started(),
    {
        if self.state == ShellState::PrePrompt {
            self.state = ShellState::AtPrompt;
        }
    }

    /// OSC 133 C: command is running.
    pub fn on_command_start(&mut self)
        ensures
            final(self)@ == old(self)@.command_started(),
    {
        self.state = ShellState::CommandRunning;
    }

    /// OSC 133 D: command finished. Records exit code, returns to
    /// PrePrompt (the next A re-enters AtPrompt).
    pub fn on_command_done(&mut self, exit_code: Option<i32>)
        ensures
            final(self)@ == old(self)@.command_done(exit_code),
    {
        self.state = ShellState::PrePrompt;
        if exit_code.is_some() {
            self.last_exit = exit_code;
        }
    }

    /// OSC 7: cwd changed.
    pub fn on_cwd(&mut self, cwd: &str)
        ensures
            final(self)@ == old(self)@.moved_to(cwd@),
    {
        self.cwd = Some(cwd.to_owned());
    }
}

/// One full cycle of prompt, input, command and exit ends where it began, with
/// the exit code recorded and everything else as it was.
pub proof fn law_full_cycle(v: StateView, exit_code: i32)
    ensures
        v.prompt_started().state is AtPrompt,
        v.prompt_started().input_started() == v.prompt_started(),
        v.prompt_started().input_started().command_started().state is CommandRunning,
        v.prompt_started().input_started().command_started().command_done(Some(exit_code)) == (StateView {
            state: ShellState::PrePrompt,
            last_exit: Some(exit_code),
            ..v
        }),
{
}

} // verus!
