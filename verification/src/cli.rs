//! The subcommands of the command line and the log filter its verbosity
//! selects.
use vstd::prelude::*;

verus! {

/// What the program is asked to do.
#[derive(Clone, Copy, Debug, PartialEq, Eq, Structural)]
pub enum Command {
    /// Sync Zotero annotations into companion markdown files
    Sync,
    /// List annotated PDFs found in the Zotero database
    List,
    /// Show sync status: matched/unmatched/pending counts
    Status,
}

/// The log filter for a verbosity count: warnings by default, then info,
/// debug, and trace from three `-v` on.
pub open spec fn log_filter_spec(verbose: u8) -> Seq<char> {
    if verbose == 0 {
        "zolit=warn"@
    } else if verbose == 1 {
        "zolit=info"@
    } else if verbose == 2 {
        "zolit=debug"@
    } else {
        "zolit=trace"@
    }
}

/// The log filter that `-v` repeated `verbose` times selects.
pub fn log_filter(verbose: u8) -> (r: &'static str)
    ensures
        r@ == log_filter_spec(verbose),
{
    match verbose {
        0 => "zolit=warn",
        1 => "zolit=info",
        2 => "zolit=debug",
        _ => "zolit=trace",
    }
}

} // verus!
