//! The run configuration: what to search for, where, and in which mode.
use vstd::prelude::*;

use crate::lines::views;
use crate::search::{
    matching_lines,
    matching_lines_insensitive,
    search,
    search_insensitive,
};

verus! {

/// Why an argument list does not make a configuration.
#[derive(Debug, Clone, Copy, PartialEq, Eq, Structural)]
pub enum ConfigError {
    /// The query or the file path is missing.
    MissingArgument,
    /// Something follows the file path.
    TooManyArguments,
}

impl ConfigError {
    /// The reason, as shown to a user.
    pub fn message(&self) -> (r: &'static str)
        ensures
            r@ == (match self {
                ConfigError::MissingArgument => "Not enough arguments"@,
                ConfigError::TooManyArguments => "Too many arguments"@,
            }),
    {
        match self {
            ConfigError::MissingArgument => "Not enough arguments",
            ConfigError::TooManyArguments => "Too many arguments",
        }
    }
}

/// One run: the query, the file to search, and whether case is ignored.
#[derive(Debug, Clone)]
pub struct Config {
    pub file_path: String,
    pub query: String,
    pub case_insensitive: bool,
}

impl Config {
    /// The configuration as plain values: query, file path, mode.
    pub open spec fn model(&self) -> (Seq<char>, Seq<char>, bool) {
        (self.query@, self.file_path@, self.case_insensitive)
    }

    /// Builds a configuration from `args`, whose first element is the
    /// program's own name and is skipped; the next two are the query and the
    /// file path. `case_insensitive` is taken as given.
    pub fn new(args: Vec<String>, case_insensitive: bool) -> (r: Result<Config, ConfigError>)
        ensures
            args@.len() < 3 <==> r == Err::<Config, ConfigError>(ConfigError::MissingArgument),
            args@.len() > 3 <==> r == Err::<Config, ConfigError>(ConfigError::TooManyArguments),
            args@.len() == 3 <==> r is Ok,
            r is Ok ==> r->Ok_0.model() == (args@[1]@, args@[2]@, case_insensitive),
    {
        if args.len() < 3 {
            return Err(ConfigError::MissingArgument);
        }
        if args.len() > 3 {
            return Err(ConfigError::TooManyArguments);
        }
        let mut args = args;
        let file_path = args.pop().unwrap();
        let query = args.pop().unwrap();
        Ok(Config { file_path, query, case_insensitive })
    }
}

/// The lines of `contents` that the configuration's query selects, in the
/// configuration's mode.
pub fn search_with<'a>(config: &Config, contents: &'a str) -> (r: Vec<&'a str>)
    ensures
        views(r@) == if config.case_insensitive {
            matching_lines_insensitive(config.query@, contents@)
        } else {
            matching_lines(config.query@, contents@)
        },
{
    if config.case_insensitive {
        search_insensitive(config.query.as_str(), contents)
    } else {
        search(config.query.as_str(), contents)
    }
}

} // verus!
