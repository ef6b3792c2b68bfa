//! What the program is started with.

use crate::text;
use vstd::prelude::*;

verus! {

#[derive(Debug)]
pub enum Commands {
    Show { reference: String },
    /// Interactively rebase onto a rev, editing the instruction list.
    Rebase { upstream: String },
    /// Edit a `git rebase -i` instruction list, as git's sequence editor.
    SequenceEditor { file: String },
    Blame { file: String, rev: Option<String> },
}

#[derive(Debug)]
pub struct Args {
    pub command: Option<Commands>,
    /// Keys to send on startup.
    pub keys: Option<String>,
    /// Print one frame and exit.
    pub print: bool,
    /// Read a patch on stdin and browse it.
    pub pager: bool,
    /// Log to a file.
    pub log: bool,
    /// Print the version.
    pub version: bool,
    /// The config file to use.
    pub config: Option<String>,
}

impl Default for Args {
    fn default() -> (args: Self)
        ensures
            args == (Args {
                command: None,
                keys: None,
                print: false,
                pager: false,
                log: false,
                version: false,
                config: None,
            }),
    {
        Args {
            command: None,
            keys: None,
            print: false,
            pager: false,
            log: false,
            version: false,
            config: None,
        }
    }
}

/// Where the program has got to in starting up.
#[derive(Debug, Clone, Copy, PartialEq, Eq, Structural)]
pub enum Startup {
    /// Look for the git command whose output is being piped in. Before anything
    /// slower, and before reading the input: the git process on the other end of
    /// a pipe exits as soon as its output fits in the pipe, and cannot be found
    /// once it has.
    FindCommand,
    OpenRepository,
    ReadInput,
    CreateApp,
    SendKeys,
    Draw,
    /// Handle events until the user quits.
    Run,
    Exit,
}

/// What comes next in starting up. Only a pager looks for a command and reads its
/// input, keys are sent only where some are given, and nothing is run after
/// printing a frame.
pub open spec fn next_step(args: Args, step: Startup) -> Startup {
    match step {
        Startup::FindCommand => Startup::OpenRepository,
        Startup::OpenRepository => if args.pager {
            Startup::ReadInput
        } else {
            Startup::CreateApp
        },
        Startup::ReadInput => Startup::CreateApp,
        Startup::CreateApp => if args.keys is Some {
            Startup::SendKeys
        } else {
            Startup::Draw
        },
        Startup::SendKeys => Startup::Draw,
        Startup::Draw => if args.print {
            Startup::Exit
        } else {
            Startup::Run
        },
        Startup::Run | Startup::Exit => Startup::Exit,
    }
}

/// What starting up begins with.
pub open spec fn first_step(args: Args) -> Startup {
    if args.pager {
        Startup::FindCommand
    } else {
        Startup::OpenRepository
    }
}

impl Args {
    /// What starting up begins with.
    pub fn begin(&self) -> (step: Startup)
        ensures
            step == first_step(*self),
    {
        if self.pager {
            Startup::FindCommand
        } else {
            Startup::OpenRepository
        }
    }

    /// What comes after a step of starting up.
    pub fn after(&self, step: Startup) -> (next: Startup)
        ensures
            next == next_step(*self, step),
    {
        match step {
            Startup::FindCommand => Startup::OpenRepository,
            Startup::OpenRepository => if self.pager {
                Startup::ReadInput
            } else {
                Startup::CreateApp
            },
            Startup::ReadInput => Startup::CreateApp,
            Startup::CreateApp => if self.keys.is_some() {
                Startup::SendKeys
            } else {
                Startup::Draw
            },
            Startup::SendKeys => Startup::Draw,
            Startup::Draw => if self.print {
                Startup::Exit
            } else {
                Startup::Run
            },
            Startup::Run | Startup::Exit => Startup::Exit,
        }
    }
}

/// The step that some number of steps come to.
pub open spec fn step_at(args: Args, n: nat) -> Startup
    decreases n,
{
    if n == 0 {
        first_step(args)
    } else {
        next_step(args, step_at(args, (n - 1) as nat))
    }
}

/// Starting up ends, whatever the program is started with; and the command whose
/// output is piped in is looked for before the input is read.
pub proof fn startup_ends(args: Args)
    ensures
        step_at(args, 7) == Startup::Exit,
        forall|n: nat| #[trigger]
            step_at(args, n) == Startup::ReadInput ==> args.pager && n > 0 && step_at(args, 0)
                == Startup::FindCommand,
{
    reveal_with_fuel(step_at, 8);
    assert forall|n: nat| #[trigger]
        step_at(args, n) == Startup::ReadInput implies args.pager && n > 0 && step_at(args, 0)
        == Startup::FindCommand by {
        lemma_reads_as_pager(args, n);
    }
}

proof fn lemma_reads_as_pager(args: Args, n: nat)
    ensures
        step_at(args, n) == Startup::ReadInput ==> args.pager && n > 0,
    decreases n,
{
    if n > 0 {
        lemma_reads_as_pager(args, (n - 1) as nat);
    }
}

/// Why there is nothing to page.
#[derive(Debug, Clone, Copy, PartialEq, Eq, Structural)]
pub enum InputError {
    PagerWithoutInput,
}

/// Whether what is piped in can be read. Reading the terminal instead would wait
/// for input that is never coming, so that is refused outright.
pub fn check_input(is_terminal: bool) -> (checked: Result<(), InputError>)
    ensures
        checked == (if is_terminal {
            Err::<(), InputError>(InputError::PagerWithoutInput)
        } else {
            Ok::<(), InputError>(())
        }),
{
    if is_terminal {
        Err(InputError::PagerWithoutInput)
    } else {
        Ok(())
    }
}

/// The directory git printed.
pub fn git_dir(printed: &str) -> (dir: String)
    ensures
        dir@ == text::trimmed_end(printed@),
{
    text::trim_end(printed)
}

} // verus!
