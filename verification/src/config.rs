//! The one-time configuration: the branch that diffs are taken against.

use crate::error::ErrorKind;
use crate::text::str_eq;
use vstd::prelude::*;
use vstd::string::StringExecFns;

verus! {

/// The user's configuration.
#[derive(Debug)]
pub struct Config {
    pub base_branch: String,
}

/// The name of the only configuration key.
pub open spec fn base_branch_key() -> Seq<char> {
    "base-branch"@
}

/// The base branch of a configuration document that names none: `main`.
pub fn default_base_branch() -> (branch: String)
    ensures
        branch@ == seq!['m', 'a', 'i', 'n'],
{
    proof {
        reveal_strlit("main");
    }
    let branch = "main".to_owned();
    assert(branch@ =~= seq!['m', 'a', 'i', 'n']);
    branch
}

impl Default for Config {
    /// The configuration that is used when no document can be read: it
    /// names no base branch.
    fn default() -> (config: Self)
        ensures
            config.base_branch@ == Seq::<char>::empty(),
    {
        Config { base_branch: String::new() }
    }
}

impl Config {
    /// The value stored under `key`; `NotFound` for a key other than
    /// `base-branch`.
    pub fn get(&self, key: &str) -> (value: Result<String, ErrorKind>)
        ensures
            match value {
                Ok(branch) => key@ == base_branch_key() && branch@ == self.base_branch@,
                Err(e) => key@ != base_branch_key() && e == ErrorKind::NotFound,
            },
    {
        if str_eq(key, "base-branch") {
            Ok(self.base_branch.clone())
        } else {
            Err(ErrorKind::NotFound)
        }
    }

    /// Stores `value` under `key`; `NotFound` for a key other than
    /// `base-branch`, which changes nothing.
    pub fn set(&mut self, key: &str, value: String) -> (done: Result<(), ErrorKind>)
        ensures
            match done {
                Ok(()) => key@ == base_branch_key() && final(self).base_branch@ == value@,
                Err(e) => {
                    &&& key@ != base_branch_key()
                    &&& e == ErrorKind::NotFound
                    &&& final(self).base_branch@ == old(self).base_branch@
                },
            },
    {
        if str_eq(key, "base-branch") {
            self.base_branch = value;
            Ok(())
        } else {
            Err(ErrorKind::NotFound)
        }
    }

    /// The configuration as one line of text: the key, ` = `, the value.
    pub fn show(&self) -> (line: String)
        ensures
            line@ == base_branch_key() + " = "@ + self.base_branch@,
    {
        let mut line = "base-branch".to_owned();
        line.append(" = ");
        line.append(self.base_branch.as_str());
        line
    }

    /// The base branch a daemon is started with: the caller's override, or
    /// the configured branch when there is none.
    pub fn effective_base_branch(self, chosen: Option<String>) -> (branch: String)
        ensures
            branch@ == match chosen {
                Some(name) => name@,
                None => self.base_branch@,
            },
    {
        match chosen {
            Some(name) => name,
            None => self.base_branch,
        }
    }
}

} // verus!
