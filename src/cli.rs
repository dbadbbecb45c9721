//! The command-line surface as plain values: subcommands, their options,
//! and the choice of output format.
use vstd::prelude::*;

verus! {

/// The lower-case form of a string, as `str::to_lowercase` gives it.
pub uninterp spec fn lower_of(s: Seq<char>) -> Seq<char>;

/// Relies on `str::to_lowercase`: the result depends on the characters alone.
#[verifier::external_body]
fn lowercase(s: &str) -> (r: String)
    ensures
        r@ == lower_of(s@),
{
    s.to_lowercase()
}

/// How to print a listing, as asked for.
#[derive(Debug, Clone, Copy, PartialEq, Eq, Structural)]
pub enum Format {
    Auto,
    Plain,
    Table,
    Json,
    NdJson,
}

/// How a listing is printed.
#[derive(Debug, Clone, Copy, PartialEq, Eq, Structural)]
pub enum ActualFormat {
    Plain,
    Table,
    Json,
    NdJson,
}

/// The format a lower-case name stands for.
pub open spec fn format_named(l: Seq<char>) -> Option<Format> {
    if l == "auto"@ {
        Some(Format::Auto)
    } else if l == "plain"@ {
        Some(Format::Plain)
    } else if l == "table"@ {
        Some(Format::Table)
    } else if l == "json"@ {
        Some(Format::Json)
    } else if l == "ndjson"@ {
        Some(Format::NdJson)
    } else {
        None
    }
}

fn is_text(a: &String, lit: &str) -> (r: bool)
    ensures
        r == (a@ == lit@),
{
    let b = String::from_str(lit);
    a.eq(&b)
}

impl Format {
    /// The format a name already in lower case stands for.
    pub fn from_lowercase(l: &String) -> (r: Option<Format>)
        ensures
            r == format_named(l@),
    {
        if is_text(l, "auto") {
            Some(Format::Auto)
        } else if is_text(l, "plain") {
            Some(Format::Plain)
        } else if is_text(l, "table") {
            Some(Format::Table)
        } else if is_text(l, "json") {
            Some(Format::Json)
        } else if is_text(l, "ndjson") {
            Some(Format::NdJson)
        } else {
            None
        }
    }

    /// The format a name stands for, in any case.
    pub fn from_name(s: &str) -> (r: Option<Format>)
        ensures
            r == format_named(lower_of(s@)),
    {
        let l = lowercase(s);
        Format::from_lowercase(&l)
    }

    /// The format to print in: `Auto` is a table on a terminal, plain text
    /// elsewhere.
    pub fn actual_format(self, stdout_is_terminal: bool) -> (r: ActualFormat)
        ensures
            self == Format::Auto ==> r == (if stdout_is_terminal {
                ActualFormat::Table
            } else {
                ActualFormat::Plain
            }),
            self == Format::Plain ==> r == ActualFormat::Plain,
            self == Format::Table ==> r == ActualFormat::Table,
            self == Format::Json ==> r == ActualFormat::Json,
            self == Format::NdJson ==> r == ActualFormat::NdJson,
    {
        match self {
            Format::Auto => if stdout_is_terminal {
                ActualFormat::Table
            } else {
                ActualFormat::Plain
            },
            Format::Plain => ActualFormat::Plain,
            Format::Table => ActualFormat::Table,
            Format::Json => ActualFormat::Json,
            Format::NdJson => ActualFormat::NdJson,
        }
    }
}

/// Options of `changed`.
#[derive(Debug)]
pub struct ChangedOpts {
    pub since: String,
    pub format: Format,
}

/// Options of `run`.
#[derive(Debug)]
pub struct RunOpts {
    pub tasks: Vec<String>,
    pub filter: Option<String>,
    pub since: Option<String>,
}

/// Options of `projects`.
#[derive(Debug)]
pub struct ProjectsOpts {
    pub format: Format,
}

/// Options of `graph`.
#[derive(Debug)]
pub struct GraphOpts {}

/// Options of `git checkout`.
#[derive(Debug)]
pub struct CheckoutOptions {
    pub project_paths: Vec<String>,
}

/// The `git` subcommands.
#[derive(Debug)]
pub enum GitCommand {
    Checkout(CheckoutOptions),
}

/// A subcommand.
#[derive(Debug)]
pub enum Command {
    Changed(ChangedOpts),
    Run(RunOpts),
    Projects(ProjectsOpts),
    Graph(GraphOpts),
    Git(GitCommand),
}

/// A parsed command line.
#[derive(Debug)]
pub struct Cli {
    pub command: Command,
}

} // verus!
