//! Options and the pure decisions of the shared command runner: which text
//! goes through a filter, what is printed, and what is echoed to stderr.

use vstd::prelude::*;
use crate::text::{trim, trim_str};

verus! {

/// How a filtered command is run: whether its full output is saved under a
/// label (and a hint to it printed), and whether only stdout is filtered.
pub struct RunOptions<'a> {
    pub tee_label: Option<&'a str>,
    pub filter_stdout_only: bool,
}

impl<'a> Default for RunOptions<'a> {
    /// No saved output, both streams filtered.
    fn default() -> (r: Self)
        ensures
            r.tee_label is None,
            !r.filter_stdout_only,
    {
        RunOptions { tee_label: None, filter_stdout_only: false }
    }
}

impl<'a> RunOptions<'a> {
    /// Options that save the full output under `label`.
    pub fn with_tee(label: &'a str) -> (r: Self)
        ensures
            r.tee_label == Some(label),
            !r.filter_stdout_only,
    {
        RunOptions { tee_label: Some(label), filter_stdout_only: false }
    }

    /// Options that filter stdout only.
    pub fn stdout_only() -> (r: Self)
        ensures
            r.tee_label is None,
            r.filter_stdout_only,
    {
        RunOptions { tee_label: None, filter_stdout_only: true }
    }

    /// These options, saving the full output under `label`.
    pub fn tee(self, label: &'a str) -> (r: Self)
        ensures
            r.tee_label == Some(label),
            r.filter_stdout_only == self.filter_stdout_only,
    {
        let mut s = self;
        s.tee_label = Some(label);
        s
    }
}

/// The captured output of a command: stdout, a newline, then stderr.
pub fn combine_output(stdout: &str, stderr: &str) -> (r: String)
    ensures
        r@ == stdout@ + "\n"@ + stderr@,
{
    let mut s = String::new();
    s.append(stdout);
    s.append("\n");
    s.append(stderr);
    s
}

/// The text handed to the filter: stdout alone, or the combined output.
pub fn filter_input<'b>(opts: &RunOptions, stdout: &'b str, raw: &'b str) -> (r: &'b str)
    ensures
        r@ == (if opts.filter_stdout_only {
            stdout@
        } else {
            raw@
        }),
{
    if opts.filter_stdout_only {
        stdout
    } else {
        raw
    }
}

/// The text printed for filtered output, followed on its own line by the hint, if any.
pub fn with_hint(filtered: &str, hint: Option<String>) -> (r: String)
    ensures
        r@ == (match hint {
            Some(h) => filtered@ + "\n"@ + h@,
            None => filtered@,
        }),
{
    let mut s = String::new();
    s.append(filtered);
    match hint {
        Some(h) => {
            s.append("\n");
            s.append(h.as_str());
        },
        None => {},
    }
    s
}

/// What is echoed to stderr after a stdout-only filter: the trimmed stderr,
/// when it is not blank.
pub fn stderr_echo(opts: &RunOptions, stderr: &str) -> (r: Option<String>)
    ensures
        (r is Some) == (opts.filter_stdout_only && trim(stderr@).len() > 0),
        r matches Some(e) ==> e@ == trim(stderr@),
{
    if !opts.filter_stdout_only {
        return None;
    }
    let e = trim_str(stderr);
    if e.is_empty() {
        None
    } else {
        Some(e.to_owned())
    }
}

} // verus!
