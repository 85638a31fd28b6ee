//! Turning the invocation's inputs into a search configuration.
use vstd::prelude::*;
use vstd::string::StringExecFns;

verus! {

broadcast use vstd::string::group_string_axioms;

/// Why the inputs do not make a configuration.
#[derive(Debug, Clone, Copy, PartialEq, Eq, Structural)]
pub enum ConfigError {
    /// No query was given.
    MissingQuery,
    /// A query but no file path was given.
    MissingFilePath,
}

impl ConfigError {
    /// A sentence that tells the user what is missing.
    pub fn message(&self) -> (r: String)
        ensures
            r@.len() > 0,
    {
        match self {
            ConfigError::MissingQuery => {
                let s = "Didn't get a query string";
                proof {
                    reveal_strlit("Didn't get a query string");
                }
                String::from_str(s)
            },
            ConfigError::MissingFilePath => {
                let s = "Didn't get a file path";
                proof {
                    reveal_strlit("Didn't get a file path");
                }
                String::from_str(s)
            },
        }
    }
}

/// One search: what to look for, where, and whether case counts.
pub struct Config {
    /// The text looked for; the empty query matches every line.
    pub query: String,
    /// Where the text to search comes from.
    pub file_path: String,
    /// Whether upper and lower case count as the same.
    pub ignore_case: bool,
}

/// The flag that asks for a search that ignores case.
pub open spec fn case_flag() -> Seq<char> {
    seq!['-', 'i']
}

impl Config {
    /// Reads `args` in order: the program's name, which is skipped, the
    /// query, the file path and an optional flag. The flag, when given,
    /// decides the case rule alone: case is ignored exactly when it is
    /// `-i`. Without it case is ignored exactly when `ignore_case_env`
    /// reports the environment's case indicator present.
    pub fn build(args: Vec<String>, ignore_case_env: bool) -> (r: Result<Config, ConfigError>)
        ensures
            args@.len() < 2 ==> r == Err::<Config, ConfigError>(ConfigError::MissingQuery),
            args@.len() == 2 ==> r == Err::<Config, ConfigError>(ConfigError::MissingFilePath),
            args@.len() >= 3 ==> r is Ok,
            r matches Ok(c) ==> {
                &&& c.query@ == args@[1]@
                &&& c.file_path@ == args@[2]@
                &&& c.ignore_case == if args@.len() > 3 {
                    args@[3]@ == case_flag()
                } else {
                    ignore_case_env
                }
            },
    {
        if args.len() < 2 {
            return Err(ConfigError::MissingQuery);
        }
        if args.len() < 3 {
            return Err(ConfigError::MissingFilePath);
        }
        let query = args[1].clone();
        let file_path = args[2].clone();
        let ignore_case = if args.len() > 3 {
            let flag = String::from_str("-i");
            proof {
                reveal_strlit("-i");
                assert(flag@ =~= case_flag());
            }
            args[3] == flag
        } else {
            ignore_case_env
        };
        Ok(Config { query, file_path, ignore_case })
    }
}

} // verus!
