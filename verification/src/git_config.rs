//! Resolution of the interactive diff tool into one command template.
//!
//! The caller reads the repository configuration and probes the execution
//! path; this module holds the decision rules: which tool name applies,
//! which program a known tool name maps to, and how a configured command
//! line becomes the argument template with `$LOCAL` and `$REMOTE`
//! placeholders that the pipeline substitutes before spawning.

use crate::text;
use vstd::prelude::*;

verus! {

/// Failure to resolve a diff tool.
#[derive(Debug)]
pub enum Error {
    /// The directory is not inside a git repository.
    NotAGitRepository(String),
    /// Neither a diff tool nor a merge tool is configured.
    NoDifftoolConfigured,
    /// The named tool is not in the built-in table.
    UnknownDifftool(String),
    /// The configured command line for the named tool cannot be split into
    /// words.
    BadToolCommand(String),
}

/// A resolved diff tool: its name and its command template, whose first
/// word is the program.
#[derive(Debug)]
pub struct Difftool {
    pub tool: String,
    pub command_args: Vec<String>,
}

/// The string contents of a vector of strings.
pub open spec fn strings_view(v: Vec<String>) -> Seq<Seq<char>> {
    v@.map_values(|s: String| s@)
}

/// What `shlex` splits a shell-style command line into, if anything.
pub uninterp spec fn shlex_split(s: Seq<char>) -> Option<Seq<Seq<char>>>;

/// Relies on `shlex::split`: splits a command line into words with
/// shell-style quoting; the result is a function of the characters alone,
/// and an erroneous line (an unclosed quote, a nul) yields nothing.
#[verifier::external_body]
fn shlex_split_exec(s: &str) -> (r: Option<Vec<String>>)
    ensures
        match shlex_split(s@) {
            Some(ws) => r matches Some(v) && strings_view(v) == ws,
            None => r is None,
        },
{
    shlex::split(s)
}

/// The configured tool name: the diff tool when set, else the merge tool,
/// else nothing.
///
/// The two arguments are the repository's `diff.tool` and `merge.tool`
/// values as the caller read them.
pub fn get_config_difftool(diff_tool: Option<String>, merge_tool: Option<String>) -> (r: Result<
    String,
    Error,
>)
    ensures
        diff_tool matches Some(t) ==> (r matches Ok(s) && s@ == t@),
        diff_tool is None ==> (merge_tool matches Some(t) ==> (r matches Ok(s) && s@ == t@)),
        diff_tool is None && merge_tool is None <==> r matches Err(Error::NoDifftoolConfigured),
    {
    match diff_tool {
        Some(t) => Ok(t),
        None => match merge_tool {
            Some(t) => Ok(t),
            None => Err(Error::NoDifftoolConfigured),
        },
    }
}

/// The programs a known tool name may resolve to, in preference order.
pub open spec fn known_tool_programs(tool: Seq<char>) -> Option<Seq<Seq<char>>> {
    if tool == "bc"@ || tool == "bc3"@ || tool == "bc4"@ {
        Some(seq!["bcomp"@, "bcompare"@])
    } else if tool == "meld"@ {
        Some(seq!["meld"@])
    } else if tool == "vimdiff"@ {
        Some(seq!["vimdiff"@])
    } else if tool == "gvimdiff"@ {
        Some(seq!["gvimdiff"@])
    } else {
        None
    }
}

/// The candidate programs for a known tool name, or nothing for an unknown
/// one.
pub fn known_tool_candidates(tool: &str) -> (r: Option<Vec<String>>)
    ensures
        match known_tool_programs(tool@) {
            Some(ps) => r matches Some(v) && strings_view(v) == ps,
            None => r is None,
        },
{
    let mut v: Vec<String> = Vec::new();
    if text::str_eq(tool, "bc") || text::str_eq(tool, "bc3") || text::str_eq(tool, "bc4") {
        v.push("bcomp".to_owned());
        v.push("bcompare".to_owned());
        proof {
            assert(strings_view(v) =~= seq!["bcomp"@, "bcompare"@]);
        }
        Some(v)
    } else if text::str_eq(tool, "meld") {
        v.push("meld".to_owned());
        proof {
            assert(strings_view(v) =~= seq!["meld"@]);
        }
        Some(v)
    } else if text::str_eq(tool, "vimdiff") {
        v.push("vimdiff".to_owned());
        proof {
            assert(strings_view(v) =~= seq!["vimdiff"@]);
        }
        Some(v)
    } else if text::str_eq(tool, "gvimdiff") {
        v.push("gvimdiff".to_owned());
        proof {
            assert(strings_view(v) =~= seq!["gvimdiff"@]);
        }
        Some(v)
    } else {
        None
    }
}

/// Whether index `i` holds the first available candidate.
pub open spec fn is_first_available(available: Seq<bool>, i: int) -> bool {
    &&& 0 <= i < available.len()
    &&& available[i]
    &&& forall|j: int| 0 <= j < i ==> !available[j]
}

/// The first candidate marked available, or the first candidate when none
/// is; this mirrors falling back to the preferred program when no probe
/// succeeded.
///
/// `available` holds the caller's probe result for each candidate, by
/// index.
pub fn pick_program(candidates: &Vec<String>, available: &Vec<bool>) -> (r: String)
    requires
        candidates@.len() > 0,
        available@.len() == candidates@.len(),
    ensures
        forall|i: int| #[trigger] is_first_available(available@, i) ==> r@ == candidates@[i]@,
        (forall|i: int| 0 <= i < available@.len() ==> !(#[trigger] available@[i])) ==> r@
            == candidates@[0]@,
    {
    let n = candidates.len();
    for i in 0..n
        invariant
            n == candidates@.len(),
            n == available@.len(),
            forall|j: int| 0 <= j < i ==> !available@[j],
    {
        if available[i] {
            return candidates[i].clone();
        }
    }
    candidates[0].clone()
}

/// The resolved program of a known tool name: the configured path when
/// set, else the first available candidate from the built-in table.
///
/// `path_config` is the repository's `difftool.<name>.path` value;
/// `available` holds one probe result per candidate of the name, in table
/// order, and is ignored when the path is configured.
pub fn get_difftool_program(
    tool: &str,
    path_config: Option<String>,
    available: &Vec<bool>,
) -> (r: Result<String, Error>)
    requires
        path_config is None ==> match known_tool_programs(tool@) {
            Some(ps) => available@.len() == ps.len(),
            None => true,
        },
    ensures
        path_config matches Some(p) ==> (r matches Ok(s) && s@ == p@),
        path_config is None ==> match known_tool_programs(tool@) {
            None => r matches Err(Error::UnknownDifftool(t)) && t@ == tool@,
            Some(ps) => {
                &&& r is Ok
                &&& forall|i: int|
                    #[trigger] is_first_available(available@, i) ==> (r matches Ok(s) && s@
                        == ps[i])
                &&& (forall|i: int| 0 <= i < available@.len() ==> !(#[trigger] available@[i]))
                    ==> (r matches Ok(s) && s@ == ps[0])
            },
        },
    {
    match path_config {
        Some(p) => Ok(p),
        None => lookup_known_tool_program(tool, available),
    }
}

/// The program of a known tool name: the first available candidate, or the
/// preferred candidate when none is available.
pub fn lookup_known_tool_program(tool: &str, available: &Vec<bool>) -> (r: Result<String, Error>)
    requires
        match known_tool_programs(tool@) {
            Some(ps) => available@.len() == ps.len(),
            None => true,
        },
    ensures
        match known_tool_programs(tool@) {
            None => r matches Err(Error::UnknownDifftool(t)) && t@ == tool@,
            Some(ps) => {
                &&& r is Ok
                &&& forall|i: int|
                    #[trigger] is_first_available(available@, i) ==> (r matches Ok(s) && s@
                        == ps[i])
                &&& (forall|i: int| 0 <= i < available@.len() ==> !(#[trigger] available@[i]))
                    ==> (r matches Ok(s) && s@ == ps[0])
            },
        },
    {
    let candidates = match known_tool_candidates(tool) {
        Some(c) => c,
        None => {
            return Err(Error::UnknownDifftool(tool.to_owned()));
        },
    };
    proof {
        assert(candidates@.len() == known_tool_programs(tool@).unwrap().len());
        assert(candidates@.len() > 0) by {
            reveal_strlit("bcomp");
            reveal_strlit("meld");
            reveal_strlit("vimdiff");
            reveal_strlit("gvimdiff");
        }
    }
    Ok(pick_program(&candidates, available))
}

/// The command template of a tool: the words of the configured command
/// line when one is set, else the resolved program followed by the two
/// placeholders.
///
/// `cmd_config` is the repository's `difftool.<name>.cmd` value and
/// `path_config` its `difftool.<name>.path` value, as the caller read
/// them; `available` is as in [`get_difftool_program`].
pub fn get_command_args(
    tool: &str,
    cmd_config: Option<String>,
    path_config: Option<String>,
    available: &Vec<bool>,
) -> (r: Result<Vec<String>, Error>)
    requires
        cmd_config is None && path_config is None ==> match known_tool_programs(tool@) {
            Some(ps) => available@.len() == ps.len(),
            None => true,
        },
    ensures
        cmd_config matches Some(c) ==> match shlex_split(c@) {
            Some(ws) => r matches Ok(v) && strings_view(v) == ws,
            None => r matches Err(Error::BadToolCommand(t)) && t@ == tool@,
        },
        cmd_config is None ==> match r {
            Ok(v) => {
                &&& strings_view(v).len() == 3
                &&& strings_view(v)[1] == "$LOCAL"@
                &&& strings_view(v)[2] == "$REMOTE"@
                &&& (path_config matches Some(p) ==> strings_view(v)[0] == p@)
                &&& (path_config is None ==> match known_tool_programs(tool@) {
                    Some(ps) => (forall|i: int|
                        #[trigger] is_first_available(available@, i) ==> strings_view(v)[0]
                            == ps[i]) && ((forall|i: int|
                        0 <= i < available@.len() ==> !(#[trigger] available@[i]))
                        ==> strings_view(v)[0] == ps[0]),
                    None => false,
                })
            },
            Err(e) => path_config is None && (e matches Error::UnknownDifftool(t) && t@ == tool@)
                && known_tool_programs(tool@) is None,
        },
    {
    match cmd_config {
        Some(c) => match shlex_split_exec(c.as_str()) {
            Some(words) => Ok(words),
            None => Err(Error::BadToolCommand(tool.to_owned())),
        },
        None => {
            let program = match get_difftool_program(tool, path_config, available) {
                Ok(p) => p,
                Err(e) => {
                    return Err(e);
                },
            };
            let mut v: Vec<String> = Vec::new();
            v.push(program);
            v.push("$LOCAL".to_owned());
            v.push("$REMOTE".to_owned());
            proof {
                assert(strings_view(v)[1] == "$LOCAL"@);
                assert(strings_view(v)[2] == "$REMOTE"@);
            }
            Ok(v)
        },
    }
}

/// One template word with the placeholders substituted.
pub open spec fn substitute_word(w: Seq<char>, local: Seq<char>, remote: Seq<char>) -> Seq<char> {
    if w == "$LOCAL"@ {
        local
    } else if w == "$REMOTE"@ {
        remote
    } else {
        w
    }
}

impl Difftool {
    /// A resolved tool from its name and command template.
    pub fn new(tool: String, command_args: Vec<String>) -> (r: Difftool)
        ensures
            r.tool@ == tool@,
            strings_view(r.command_args) == strings_view(command_args),
    {
        Difftool { tool, command_args }
    }

    /// The argument vector for one comparison: every `$LOCAL` placeholder
    /// replaced by the original's path and every `$REMOTE` by the new
    /// path, other words kept; the first word stays the program.  The
    /// caller also exports the two paths as the `LOCAL` and `REMOTE`
    /// environment variables for tools that read those instead.
    pub fn substituted_args(&self, local: &str, remote: &str) -> (r: Vec<String>)
        ensures
            strings_view(r).len() == strings_view(self.command_args).len(),
            forall|i: int|
                0 <= i < strings_view(r).len() ==> #[trigger] strings_view(r)[i]
                    == substitute_word(strings_view(self.command_args)[i], local@, remote@),
    {
        let mut out: Vec<String> = Vec::new();
        let n = self.command_args.len();
        for i in 0..n
            invariant
                n == self.command_args@.len(),
                strings_view(out).len() == i,
                forall|j: int|
                    0 <= j < i ==> #[trigger] strings_view(out)[j] == substitute_word(
                        strings_view(self.command_args)[j],
                        local@,
                        remote@,
                    ),
        {
            let w = &self.command_args[i];
            let ghost prev = strings_view(out);
            let ghost expect = substitute_word(
                strings_view(self.command_args)[i as int],
                local@,
                remote@,
            );
            proof {
                assert(strings_view(self.command_args)[i as int] == w@);
            }
            if text::str_eq(w.as_str(), "$LOCAL") {
                out.push(local.to_owned());
            } else if text::str_eq(w.as_str(), "$REMOTE") {
                out.push(remote.to_owned());
            } else {
                out.push(w.clone());
            }
            proof {
                assert(strings_view(out) =~= prev.push(expect));
            }
        }
        out
    }
}

} // verus!
