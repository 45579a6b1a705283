//! The commands of the tool and what each asks of the clipboard.
use vstd::prelude::*;

use crate::clipboard::Clipboard;
use crate::store::views;

verus! {

/// A command as given on the command line.
#[derive(Debug, Clone, PartialEq, Eq)]
pub enum Command {
    /// Queue the paths `files`.
    Add { files: Vec<String> },
    /// Copy the queued paths into `dest`, or into the current directory.
    Copy { dest: Option<String> },
    /// Move the queued paths into `dest`, or into the current directory.
    Move { dest: Option<String> },
    /// Print the queued paths.
    List,
    /// Empty the clipboard.
    Clear,
}

/// The work that a command asks of the clipboard, with every default filled
/// in.
#[derive(Debug, Clone, PartialEq, Eq)]
pub enum Task {
    /// Resolve and queue these paths.
    Add(Vec<String>),
    /// Copy the queued paths into this directory.
    Copy(String),
    /// Move the queued paths into this directory.
    Move(String),
    /// Print the queued paths.
    List,
    /// Empty the clipboard.
    Clear,
}

/// The directory that a copy or a move goes to: the one given, or the
/// current directory `.`.
pub open spec fn spec_dest_or_cwd(dest: Option<String>) -> Seq<char> {
    match dest {
        Some(d) => d@,
        None => seq!['.'],
    }
}

fn dest_or_cwd(dest: &Option<String>) -> (r: String)
    ensures
        r@ == spec_dest_or_cwd(*dest),
{
    match dest {
        Some(d) => d.clone(),
        None => {
            proof {
                reveal_strlit(".");
            }
            String::from_str(".")
        },
    }
}

fn copy_all(v: &Vec<String>) -> (r: Vec<String>)
    ensures
        views(r@) == views(v@),
{
    let mut out: Vec<String> = Vec::new();
    let mut i: usize = 0;
    while i < v.len()
        invariant
            i <= v.len(),
            views(out@) == views(v@).subrange(0, i as int),
        decreases v.len() - i,
    {
        let s = v[i].clone();
        proof {
            assert(s@ == views(v@)[i as int]);
            assert(views(out@.push(s)) =~= views(out@).push(s@));
            assert(views(out@.push(s)) =~= views(v@).subrange(0, i + 1));
        }
        out.push(s);
        i = i + 1;
    }
    proof {
        assert(views(v@).subrange(0, v.len() as int) =~= views(v@));
    }
    out
}

/// One run of the tool: a clipboard and the command to apply to it.
#[derive(Debug, Clone, PartialEq, Eq)]
pub struct App {
    clipboard: Clipboard,
    cmd: Command,
}

impl App {
    /// The run that applies `cmd` to `clipboard`.
    pub fn new(clipboard: Clipboard, cmd: Command) -> (r: App)
        ensures
            r.spec_clipboard() == clipboard,
            r.spec_command() == cmd,
    {
        App { clipboard, cmd }
    }

    /// The clipboard of this run.
    pub closed spec fn spec_clipboard(&self) -> Clipboard {
        self.clipboard
    }

    /// The command of this run.
    pub closed spec fn spec_command(&self) -> Command {
        self.cmd
    }

    /// The clipboard of this run.
    pub fn clipboard(&self) -> (r: &Clipboard)
        ensures
            *r == self.spec_clipboard(),
    {
        &self.clipboard
    }

    /// The work that the command asks for: a copy or a move without a
    /// destination goes to the current directory.
    pub fn run(&self) -> (r: Task)
        ensures
            match self.spec_command() {
                Command::Add { files } => r matches Task::Add(f) && views(f@) == views(files@),
                Command::Copy { dest } => r matches Task::Copy(d) && d@ == spec_dest_or_cwd(dest),
                Command::Move { dest } => r matches Task::Move(d) && d@ == spec_dest_or_cwd(dest),
                Command::List => r is List,
                Command::Clear => r is Clear,
            },
    {
        match &self.cmd {
            Command::Add { files } => Task::Add(copy_all(files)),
            Command::Copy { dest } => Task::Copy(dest_or_cwd(dest)),
            Command::Move { dest } => Task::Move(dest_or_cwd(dest)),
            Command::List => Task::List,
            Command::Clear => Task::Clear,
        }
    }
}

} // verus!
