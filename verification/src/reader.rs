//! Where the log viewer reads its lines from, as chosen on the command line.
use vstd::prelude::*;
use crate::text::str_equal;

verus! {

/// The input of the log viewer
#[derive(Debug, PartialEq, Eq)]
pub enum Source {
    Stdin,
    /// A Unix socket, by its path
    Socket(String),
}

/// What the command line asks for
#[derive(Debug, PartialEq, Eq)]
pub enum ArgsOutcome {
    /// Read from this source
    Run(Source),
    /// Print the usage and stop
    Help,
    /// `--socket` was given without a path
    MissingSocketPath,
    /// An argument that is not understood
    Unknown(String),
}

/// The meaning of a command line, its first element being the program: only
/// the first argument is looked at, since each one decides the outcome
pub open spec fn args_outcome(args: Seq<Seq<char>>) -> ArgsOutcomeView {
    if args.len() <= 1 {
        ArgsOutcomeView::Stdin
    } else if args[1] == "--socket"@ {
        if args.len() > 2 {
            ArgsOutcomeView::Socket(args[2])
        } else {
            ArgsOutcomeView::MissingSocketPath
        }
    } else if args[1] == "--help"@ || args[1] == "-h"@ {
        ArgsOutcomeView::Help
    } else {
        ArgsOutcomeView::Unknown(args[1])
    }
}

/// An outcome with its strings taken as characters
pub enum ArgsOutcomeView {
    Stdin,
    Socket(Seq<char>),
    Help,
    MissingSocketPath,
    Unknown(Seq<char>),
}

pub open spec fn outcome_view(o: ArgsOutcome) -> ArgsOutcomeView {
    match o {
        ArgsOutcome::Run(Source::Stdin) => ArgsOutcomeView::Stdin,
        ArgsOutcome::Run(Source::Socket(p)) => ArgsOutcomeView::Socket(p@),
        ArgsOutcome::Help => ArgsOutcomeView::Help,
        ArgsOutcome::MissingSocketPath => ArgsOutcomeView::MissingSocketPath,
        ArgsOutcome::Unknown(a) => ArgsOutcomeView::Unknown(a@),
    }
}

/// Decide what a command line asks for: `--socket <path>` reads from a Unix
/// socket, `--help` or `-h` asks for the usage, and no argument reads stdin
pub fn parse_args(args: &Vec<String>) -> (r: ArgsOutcome)
    ensures
        outcome_view(r) == args_outcome(args@.map_values(|a: String| a@)),
{
    let ghost view = args@.map_values(|a: String| a@);
    if args.len() <= 1 {
        return ArgsOutcome::Run(Source::Stdin);
    }
    let first = args[1].as_str();
    if str_equal(first, "--socket") {
        if args.len() > 2 {
            return ArgsOutcome::Run(Source::Socket(args[2].clone()));
        }
        return ArgsOutcome::MissingSocketPath;
    }
    if str_equal(first, "--help") || str_equal(first, "-h") {
        return ArgsOutcome::Help;
    }
    ArgsOutcome::Unknown(args[1].clone())
}

} // verus!
