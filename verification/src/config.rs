//! What one invocation asks for, read from its arguments.

use vstd::prelude::*;
use vstd::string::*;
use vstd::utf8::*;

verus! {

/// What an invocation does.
#[derive(Clone, Copy, Debug, PartialEq, Eq, Structural)]
pub enum Mode {
    /// Prints a notice and stops.
    Announce,
    /// Searches a file for a query.
    Find,
}

/// One invocation: its mode, and for `Mode::Find` the query, the path of the
/// file to search and the comparison policy.
pub struct Config {
    pub mode: Mode,
    pub query: Option<String>,
    pub file_path: Option<String>,
    pub case_sensitive: bool,
}

/// The mode that the token `token` names, if it names one.
pub open spec fn mode_named(token: Seq<char>) -> Option<Mode> {
    if token == "announce"@ {
        Some(Mode::Announce)
    } else if token == "find"@ {
        Some(Mode::Find)
    } else {
        None
    }
}

/// The number of arguments, the command name included, that `mode` needs.
pub open spec fn arguments_needed(mode: Mode) -> int {
    match mode {
        Mode::Announce => 2,
        Mode::Find => 4,
    }
}

/// Whether `args` makes a configuration, or else what is wrong with it: too
/// few arguments for a mode token, a token that names no mode, or too few
/// arguments for the mode named.
pub open spec fn usage_error(args: Seq<String>) -> Option<Seq<char>> {
    if args.len() < 2 {
        Some("not enough arguments"@)
    } else {
        match mode_named(args[1]@) {
            None => Some("Invalid mode. Use 'announce' or 'find'"@),
            Some(mode) => if args.len() < arguments_needed(mode) {
                Some("not enough arguments"@)
            } else {
                None
            },
        }
    }
}

impl Config {
    /// A configuration is well formed when it holds a query and a path
    /// exactly in `Mode::Find`.
    pub open spec fn well_formed(&self) -> bool {
        &&& self.query is Some <==> self.mode == Mode::Find
        &&& self.file_path is Some <==> self.mode == Mode::Find
    }

    /// Reads a configuration from the arguments of an invocation: the
    /// command name, the mode token, and for `find` the query and the path.
    /// `case_sensitive` is the comparison policy, which the caller has
    /// decided. Further arguments are ignored.
    pub fn new(args: &[String], case_sensitive: bool) -> (made: Result<Config, &'static str>)
        ensures
            match made {
                Ok(config) => {
                    &&& usage_error(args@) is None
                    &&& config.well_formed()
                    &&& Some(config.mode) == mode_named(args@[1]@)
                    &&& config.case_sensitive == case_sensitive
                    &&& config.mode == Mode::Find ==> config.query == Some(args@[2])
                        && config.file_path == Some(args@[3])
                },
                Err(message) => usage_error(args@) == Some(message@),
            },
    {
        if args.len() < 2 {
            return Err("not enough arguments");
        }
        let token = args[1].as_str();
        if same_text(token, "announce") {
            Ok(Config { mode: Mode::Announce, query: None, file_path: None, case_sensitive })
        } else if same_text(token, "find") {
            if args.len() < 4 {
                return Err("not enough arguments");
            }
            Ok(
                Config {
                    mode: Mode::Find,
                    query: Some(args[2].clone()),
                    file_path: Some(args[3].clone()),
                    case_sensitive,
                },
            )
        } else {
            Err("Invalid mode. Use 'announce' or 'find'")
        }
    }
}

/// Whether two strings hold the same text.
pub fn same_text(left: &str, right: &str) -> (same: bool)
    ensures
        same == (left@ == right@),
{
    broadcast use group_utf8_lib;

    let a = left.as_bytes();
    let b = right.as_bytes();
    if a.len() != b.len() {
        return false;
    }
    let n: usize = a.len();
    let mut k: usize = 0;
    while k < n
        invariant
            a@ == left.spec_bytes(),
            b@ == right.spec_bytes(),
            n == a@.len(),
            n == b@.len(),
            k <= n,
            forall|j: int| 0 <= j < k ==> a@[j] == b@[j],
        decreases n - k,
    {
        if a[k] != b[k] {
            return false;
        }
        k += 1;
    }
    proof {
        assert(a@ =~= b@);
        assert(left@ == decode_utf8(left.spec_bytes()));
        assert(right@ == decode_utf8(right.spec_bytes()));
    }
    true
}

} // verus!
