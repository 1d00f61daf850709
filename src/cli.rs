//! What the command line asks for.

use vstd::prelude::*;

verus! {

/// What a run does.
#[derive(Debug)]
pub enum Command {
    /// Print the usage and stop, without touching the filesystem.
    Help,
    /// Scan the tree rooted at this path.
    Scan(String),
}

/// Whether `arg` asks for the usage.
pub open spec fn is_help_flag(arg: Seq<char>) -> bool {
    arg == "--help"@ || arg == "-h"@
}

/// The command for the first argument after the program's name: the usage
/// for `--help` or `-h`, else a scan of the path it names, or of the
/// current directory when there is none.
pub fn parse_command(first: Option<String>) -> (r: Command)
    ensures
        match first {
            None => r is Scan && r->Scan_0@ == "."@,
            Some(a) => if is_help_flag(a@) {
                r is Help
            } else {
                r is Scan && r->Scan_0 == a
            },
        },
{
    proof {
        reveal_strlit("--help");
        reveal_strlit("-h");
        reveal_strlit(".");
    }
    match first {
        None => Command::Scan(".".to_owned()),
        Some(a) => {
            if a == "--help".to_owned() || a == "-h".to_owned() {
                Command::Help
            } else {
                Command::Scan(a)
            }
        },
    }
}

/// The usage text.
pub fn usage() -> (r: String)
    ensures
        r@ == "Usage:\n\tf-stats <folder-name>\n"@,
{
    "Usage:\n\tf-stats <folder-name>\n".to_owned()
}

} // verus!
