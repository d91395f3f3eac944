//! The configuration of one search run, and how it is resolved from the
//! arguments of an invocation.

use crate::lines::lines_of;
use crate::search::{matching_lines, search, search_case_insensitive};
use crate::text::same_text;
use vstd::prelude::*;
use vstd::string::*;

verus! {

/// What one search run works on: the text to look for, the path of the
/// file to look in, and whether letter case is ignored.
#[derive(Debug)]
pub struct Config {
    pub query: String,
    pub file_path: String,
    pub ignore_case: bool,
}

/// Why no configuration could be resolved.
#[derive(Debug, Clone, Copy, PartialEq, Eq, Structural)]
pub enum ConfigError {
    /// Fewer than two arguments were given: a query and a file path are
    /// both needed.
    InsufficientArguments,
}

/// The third argument that asks for letter case to be ignored.
pub open spec fn ignore_token() -> Seq<char> {
    seq!['i', 'g', 'n', 'o', 'r', 'e']
}

/// Whether letter case is ignored for the given arguments: the third
/// argument asks for it by being exactly the token, or else the environment
/// does. A third argument that is anything else, in letter case too, counts
/// as absent.
pub open spec fn resolves_to_ignore_case(args: Seq<Seq<char>>, env_ignore_case: bool) -> bool {
    (args.len() >= 3 && args[2] == ignore_token()) || env_ignore_case
}

impl ConfigError {
    /// A sentence for the user that says what went wrong.
    pub fn message(&self) -> (text: &'static str)
        ensures
            text@ == "Not enough arguments."@,
    {
        match self {
            ConfigError::InsufficientArguments => "Not enough arguments.",
        }
    }
}

impl Config {
    /// Resolves the configuration from the arguments of an invocation,
    /// program name left out: the query, the file path, and an optional
    /// flag. `env_ignore_case` says whether the environment variable
    /// `IGNORE_CASE` is set, to whatever value. Arguments after the third are
    /// ignored, and the file path is not looked at.
    pub fn build(args: &[String], env_ignore_case: bool) -> (built: Result<Config, ConfigError>)
        ensures
            built is Err <==> args@.len() < 2,
            built is Err ==> built == Err::<Config, ConfigError>(
                ConfigError::InsufficientArguments,
            ),
            built matches Ok(config) ==> {
                &&& config.query@ == args@[0]@
                &&& config.file_path@ == args@[1]@
                &&& config.ignore_case == resolves_to_ignore_case(
                    args.deep_view(),
                    env_ignore_case,
                )
            },
    {
        if args.len() < 2 {
            return Err(ConfigError::InsufficientArguments);
        }
        let query: String = args[0].clone();
        let file_path: String = args[1].clone();
        let mut ignore_case: bool = env_ignore_case;
        if args.len() >= 3 {
            proof {
                reveal_strlit("ignore");
                assert("ignore"@ =~= ignore_token());
            }
            if same_text(args[2].as_str(), "ignore") {
                ignore_case = true;
            }
        }
        Ok(Config { query, file_path, ignore_case })
    }
}

/// Runs the search that `config` describes on the contents of its file,
/// read by the caller, and returns the lines to put out, in order.
pub fn run<'a>(config: &Config, contents: &'a str) -> (out: Vec<&'a str>)
    ensures
        out.deep_view() == matching_lines(config.query@, contents@, config.ignore_case),
        config.query@.len() == 0 ==> out.deep_view() == lines_of(contents@),
{
    if config.ignore_case {
        search_case_insensitive(config.query.as_str(), contents)
    } else {
        search(config.query.as_str(), contents)
    }
}

} // verus!
