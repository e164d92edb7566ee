//! What one run of the search is asked to do.

use vstd::prelude::*;
use vstd::string::*;
use crate::matcher::CasePolicy;
use crate::scanner::{is_scan_result, scan};

verus! {

/// The least number of arguments a run needs: the program's name, the query
/// and the name of the file to search.
pub const REQUIRED_ARGUMENTS: usize = 3;

/// The policy that a run follows, given whether it tells upper-case letters
/// from lower-case ones.
pub open spec fn policy_for(case_sensitive: bool) -> CasePolicy {
    if case_sensitive {
        CasePolicy::Sensitive
    } else {
        CasePolicy::Insensitive
    }
}

/// The settings of one run.
pub struct Config {
    /// The text to look for.
    pub query: String,
    /// The name of the file whose lines are searched.
    pub filename: String,
    /// Whether upper-case and lower-case letters are told apart.
    pub case_sensitive: bool,
}

impl Config {
    /// Reads the settings from the program's arguments. `args[0]` is the
    /// program's name, `args[1]` the query and `args[2]` the file's name;
    /// further arguments are ignored. `ignore_case` says whether the caller
    /// found the request to ignore case in the environment.
    ///
    /// Fails exactly when there are fewer than three arguments.
    pub fn new(args: &[String], ignore_case: bool) -> (result: Result<Config, &'static str>)
        ensures
            result is Err <==> args@.len() < REQUIRED_ARGUMENTS,
            result is Err ==> result->Err_0@ == "not enough arguments"@,
            result is Ok ==> result->Ok_0.query@ == args@[1]@,
            result is Ok ==> result->Ok_0.filename@ == args@[2]@,
            result is Ok ==> result->Ok_0.case_sensitive == !ignore_case,
    {
        if args.len() < REQUIRED_ARGUMENTS {
            return Err("not enough arguments");
        }
        let query = args[1].clone();
        let filename = args[2].clone();
        Ok(Config { query, filename, case_sensitive: !ignore_case })
    }

    /// The policy these settings ask for.
    pub open spec fn policy_spec(&self) -> CasePolicy {
        policy_for(self.case_sensitive)
    }

    /// The policy these settings ask for.
    #[verifier::when_used_as_spec(policy_spec)]
    pub fn policy(&self) -> (policy: CasePolicy)
        ensures
            policy == self.policy_spec(),
    {
        if self.case_sensitive {
            CasePolicy::Sensitive
        } else {
            CasePolicy::Insensitive
        }
    }
}

/// Carries out the search that `config` asks for on `contents`, the text of
/// the file that `config` names: returns the lines to report, in the order in
/// which they stand in `contents`.
pub fn run<'a>(config: &Config, contents: &'a str) -> (lines: Vec<&'a str>)
    ensures
        is_scan_result(lines@, config.query@, contents@, config.policy()),
{
    scan(config.query.as_str(), contents, config.policy())
}

} // verus!
